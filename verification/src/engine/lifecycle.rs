//! The engine: the only admission path of one instrument.

use vstd::prelude::*;

use crate::engine::builder::EngineStorage;
use crate::engine::{CheckpointError, EngineError, EngineState, Health};
use crate::events::engine::{
    admission_fault, command_events, AdmittedCommand, BookTop, BoundedEventEngine,
};
use crate::events::{CommandIdentity, EventEngineError, GatewayError, GatewayOutcome, ParseError};
use crate::journal::channel::{JournalStatus, JournalWriter, WriterView};
use crate::journal::record::RecordView;
use crate::types::{Command, InstrumentId, ReportBuffer, SequenceNumber};

verus! {

/// An engine as a mathematical value. The writer is gone once admission has
/// stopped.
pub struct EngineView {
    pub instrument: InstrumentId,
    pub writer: Option<WriterView>,
    pub failed: bool,
}

/// Why a command is refused, and whether the refusal ends the engine.
pub struct Refusal {
    pub error: EngineError,
    pub fatal: bool,
}

/// What the gateway knows of a command before it is applied.
#[derive(Clone, Copy, Debug, PartialEq, Eq)]
pub struct GatewayCheck {
    /// The sequence that the gateway expects next.
    pub expected: SequenceNumber,
    /// What the gateway says of the command's sequence.
    pub sequence: Result<(), GatewayError>,
}

impl EngineView {
    /// Why a command is refused, if it is: the checks in their order.
    pub open spec fn refusal(
        self,
        status: JournalStatus,
        journaled: nat,
        published: nat,
        event_capacity: usize,
        command: Command,
        check: GatewayCheck,
        frame: Seq<u8>,
    ) -> Option<Refusal> {
        let admission = admission_fault(check.sequence, published, event_capacity);
        if self.failed {
            Some(Refusal { error: EngineError::Failed, fatal: false })
        } else if status.poisoned {
            Some(Refusal { error: EngineError::PersistenceFailed, fatal: true })
        } else if self.writer is None {
            Some(Refusal { error: EngineError::Stopped, fatal: false })
        } else if command.spec_instrument_id() != self.instrument {
            Some(
                Refusal {
                    error: EngineError::UnknownInstrument(command.spec_instrument_id()),
                    fatal: false,
                },
            )
        } else if self.writer->0.next_sequence != check.expected.0 {
            Some(Refusal { error: EngineError::SequenceInvariant, fatal: true })
        } else if admission is Some {
            Some(
                Refusal {
                    error: EngineError::Admission(admission->0),
                    fatal: admission->0 matches EventEngineError::Gateway(
                        GatewayError::RiskState(_),
                    ),
                },
            )
        } else if self.writer->0.refusal(journaled, frame) is Some {
            Some(
                Refusal {
                    error: EngineError::Journal(self.writer->0.refusal(journaled, frame)->0),
                    fatal: false,
                },
            )
        } else {
            None
        }
    }

    /// The engine once admission has stopped.
    pub open spec fn stopped(self) -> EngineView {
        EngineView { writer: None, ..self }
    }

    /// The engine once it has failed.
    pub open spec fn ended(self) -> EngineView {
        EngineView { writer: None, failed: true, ..self }
    }

    /// The journal status once admission has stopped: the writer, where there is
    /// one, is closed.
    pub open spec fn closed(self, status: JournalStatus) -> JournalStatus {
        if self.writer is Some && self.writer->0.controlled {
            JournalStatus { producer_closed: true, ..status }
        } else {
            status
        }
    }

    pub open spec fn state(self, status: JournalStatus) -> EngineState {
        if self.failed || status.poisoned {
            EngineState::Failed
        } else if self.writer is Some {
            EngineState::Running
        } else if status.shutdown_complete {
            EngineState::Stopped
        } else {
            EngineState::Stopping
        }
    }

    /// Why no checkpoint can be taken, if none can.
    pub open spec fn checkpoint_fault(self, status: JournalStatus, next: SequenceNumber) -> Option<
        CheckpointError,
    > {
        if self.state(status) == EngineState::Failed {
            Some(CheckpointError::Failed)
        } else if self.writer is Some {
            Some(CheckpointError::AdmissionOpen)
        } else if !status.shutdown_complete {
            Some(CheckpointError::PersistencePending)
        } else if status.next_written_sequence != next.0 || status.next_durable_sequence != next.0 {
            Some(CheckpointError::SequenceInvariant)
        } else if next.0 == 0 {
            Some(CheckpointError::SequenceInvariant)
        } else {
            None
        }
    }
}

/// Owns the journal admission path of one instrument. Events acknowledge
/// application, not durability. Persistence runs separately.
pub struct Engine<const REPORTS: usize, const BATCH: usize, const EVENTS: usize> {
    instrument: InstrumentId,
    events: BoundedEventEngine<REPORTS, BATCH, EVENTS>,
    journal: Option<JournalWriter>,
    failed: bool,
}

impl<const REPORTS: usize, const BATCH: usize, const EVENTS: usize> View for Engine<
    REPORTS,
    BATCH,
    EVENTS,
> {
    type V = EngineView;

    closed spec fn view(&self) -> EngineView {
        EngineView {
            instrument: self.instrument,
            writer: match self.journal {
                Some(writer) => Some(writer@),
                None => None,
            },
            failed: self.failed,
        }
    }
}

impl<const REPORTS: usize, const BATCH: usize, const EVENTS: usize> Engine<REPORTS, BATCH, EVENTS> {
    pub closed spec fn wf(&self) -> bool {
        self.events.wf()
    }

    pub(crate) fn new(
        instrument: InstrumentId,
        events: BoundedEventEngine<REPORTS, BATCH, EVENTS>,
        writer: JournalWriter,
    ) -> (engine: Self)
        requires
            events.wf(),
        ensures
            engine.wf(),
            engine@ == (EngineView { instrument, writer: Some(writer@), failed: false }),
    {
        Engine { instrument, events, journal: Some(writer), failed: false }
    }

    #[must_use]
    pub fn instrument(&self) -> (instrument: InstrumentId)
        ensures
            instrument == self@.instrument,
    {
        self.instrument
    }

    /// Has the command of a frame admitted and journaled, given what the wire
    /// decoder made of the frame. A frame that does not parse changes nothing.
    pub fn admit_frame(
        &mut self,
        storage: &mut EngineStorage<BATCH, EVENTS>,
        parsed: Result<Command, ParseError>,
        check: GatewayCheck,
        frame: &[u8],
    ) -> (outcome: Result<AdmittedCommand, EngineError>)
        requires
            old(self).wf(),
            old(storage).wf(),
        ensures
            final(self).wf(),
            final(storage).wf(),
            final(storage).used == old(storage).used,
            final(storage).events@ == old(storage).events@,
            match parsed {
                Err(error) => {
                    &&& outcome is Err
                    &&& outcome->Err_0 == EngineError::Parse(error)
                    &&& *final(self) == *old(self)
                    &&& final(storage).journal.records() == old(storage).journal.records()
                    &&& final(storage).journal.status() == old(storage).journal.status()
                },
                Ok(command) => admitted(
                    old(self)@,
                    old(storage).journal.records(),
                    old(storage).journal.status(),
                    old(storage).events@.len(),
                    EVENTS,
                    command,
                    check,
                    frame@,
                    final(self)@,
                    final(storage).journal.records(),
                    final(storage).journal.status(),
                    outcome,
                ),
            },
    {
        match parsed {
            Err(error) => Err(EngineError::Parse(error)),
            Ok(command) => self.admit_command(storage, command, check, frame),
        }
    }

    /// Checks one command and journals its frame, in this order, before it is
    /// applied. Sequence, instrument and queue refusals leave the command
    /// unconsumed.
    pub fn admit_command(
        &mut self,
        storage: &mut EngineStorage<BATCH, EVENTS>,
        command: Command,
        check: GatewayCheck,
        frame: &[u8],
    ) -> (outcome: Result<AdmittedCommand, EngineError>)
        requires
            old(self).wf(),
            old(storage).wf(),
        ensures
            final(self).wf(),
            final(storage).wf(),
            final(storage).used == old(storage).used,
            final(storage).events@ == old(storage).events@,
            admitted(
                old(self)@,
                old(storage).journal.records(),
                old(storage).journal.status(),
                old(storage).events@.len(),
                EVENTS,
                command,
                check,
                frame@,
                final(self)@,
                final(storage).journal.records(),
                final(storage).journal.status(),
                outcome,
            ),
    {
        if self.failed {
            return Err(EngineError::Failed);
        }
        if storage.journal.status_reader().is_poisoned() {
            self.fail(storage);
            return Err(EngineError::PersistenceFailed);
        }
        let next: u64 = match &self.journal {
            Some(writer) => writer.next_sequence(),
            None => {
                return Err(EngineError::Stopped);
            },
        };
        if command.instrument_id() != self.instrument {
            return Err(EngineError::UnknownInstrument(command.instrument_id()));
        }
        if next != check.expected.0 {
            self.fail(storage);
            return Err(EngineError::SequenceInvariant);
        }
        let admitted = match self.events.admit_command(&storage.events, command, check.sequence) {
            Ok(admitted) => admitted,
            Err(error) => {
                if let EventEngineError::Gateway(GatewayError::RiskState(reason)) = error {
                    self.fail(storage);
                }
                return Err(EngineError::Admission(error));
            },
        };
        match &mut self.journal {
            Some(writer) => match writer.enqueue(&mut storage.journal, frame) {
                Ok(sequence) => Ok(admitted),
                Err(error) => Err(EngineError::Journal(error)),
            },
            None => vstd::pervasive::unreached(),
        }
    }

    /// Publishes the events of an admitted command from the gateway's answer. An
    /// error here comes after the command was journaled, and ends the engine.
    pub fn apply_command(
        &mut self,
        storage: &mut EngineStorage<BATCH, EVENTS>,
        admitted: AdmittedCommand,
        before: BookTop,
        after: BookTop,
        reports: &ReportBuffer<REPORTS>,
        result: Result<GatewayOutcome, GatewayError>,
    ) -> (outcome: Result<(), EngineError>)
        requires
            old(self).wf(),
            old(storage).wf(),
        ensures
            final(self).wf(),
            final(storage).wf(),
            final(storage).used == old(storage).used,
            final(storage).journal.records() == old(storage).journal.records(),
            ({
                let events = command_events(
                    CommandIdentity::spec_from_command(admitted.spec_command()),
                    admitted.spec_command().spec_sequence(),
                    before,
                    after,
                    reports@,
                    result,
                );
                if events is Ok && old(storage).events@.len() < EVENTS {
                    &&& outcome is Ok
                    &&& *final(self) == *old(self)
                    &&& final(storage).journal.status() == old(storage).journal.status()
                    &&& final(storage).events@.len() == old(storage).events@.len() + 1
                    &&& final(storage).events@.drop_last() == old(storage).events@
                    &&& final(storage).events@.last()@ == events->Ok_0
                } else {
                    &&& outcome is Err
                    &&& outcome->Err_0 == EngineError::Apply(
                        if events is Err {
                            events->Err_0
                        } else {
                            EventEngineError::PublicationInvariant
                        },
                    )
                    &&& final(self)@ == old(self)@.ended()
                    &&& final(storage).journal.status() == old(self)@.closed(
                        old(storage).journal.status(),
                    )
                    &&& final(storage).events@ == old(storage).events@
                }
            }),
    {
        match self.events.apply(&mut storage.events, admitted, before, after, reports, result) {
            Ok(()) => Ok(()),
            Err(error) => {
                self.fail(storage);
                Err(EngineError::Apply(error))
            },
        }
    }

    /// Closes the journal producer after the last admitted command. The
    /// persistence worker must still drain and flush. Calling this twice is
    /// harmless.
    pub fn stop_admission(&mut self, storage: &mut EngineStorage<BATCH, EVENTS>)
        requires
            old(self).wf(),
            old(storage).wf(),
        ensures
            final(self).wf(),
            final(storage).wf(),
            final(self)@ == old(self)@.stopped(),
            final(storage).used == old(storage).used,
            final(storage).events@ == old(storage).events@,
            final(storage).journal.records() == old(storage).journal.records(),
            final(storage).journal.status() == old(self)@.closed(old(storage).journal.status()),
    {
        match self.journal.take() {
            Some(writer) => {
                writer.close(&mut storage.journal);
            },
            None => {},
        }
    }

    fn fail(&mut self, storage: &mut EngineStorage<BATCH, EVENTS>)
        requires
            old(self).wf(),
            old(storage).wf(),
        ensures
            final(self).wf(),
            final(storage).wf(),
            final(self)@ == old(self)@.ended(),
            final(storage).used == old(storage).used,
            final(storage).events@ == old(storage).events@,
            final(storage).journal.records() == old(storage).journal.records(),
            final(storage).journal.status() == old(self)@.closed(old(storage).journal.status()),
    {
        self.failed = true;
        self.stop_admission(storage);
    }

    /// The state of the engine, where the gateway expects `next` next.
    #[must_use]
    pub fn health(&self, storage: &EngineStorage<BATCH, EVENTS>, next: SequenceNumber) -> (health:
        Health)
        ensures
            health == (Health {
                state: self@.state(storage.journal.status()),
                next_sequence: next,
                journal: storage.journal.status(),
            }),
    {
        let journal = storage.journal.status_reader().snapshot();
        let state = if self.failed || journal.poisoned {
            EngineState::Failed
        } else if self.journal.is_some() {
            EngineState::Running
        } else if journal.shutdown_complete {
            EngineState::Stopped
        } else {
            EngineState::Stopping
        };
        Health { state, next_sequence: next, journal }
    }

    /// The last sequence that a snapshot covers, after producer closure and final
    /// flush. Open admission, pending or failed persistence and mismatched
    /// watermarks are refused.
    pub fn checkpoint(&self, storage: &EngineStorage<BATCH, EVENTS>, next: SequenceNumber) -> (
    outcome: Result<u64, CheckpointError>)
        ensures
            outcome == match self@.checkpoint_fault(storage.journal.status(), next) {
                Some(error) => Err::<u64, _>(error),
                None => Ok::<_, CheckpointError>((next.0 - 1) as u64),
            },
    {
        let health = self.health(storage, next);
        if health.state == EngineState::Failed {
            return Err(CheckpointError::Failed);
        }
        if self.journal.is_some() {
            return Err(CheckpointError::AdmissionOpen);
        }
        if !health.journal.shutdown_complete {
            return Err(CheckpointError::PersistencePending);
        }
        if health.journal.next_written_sequence != next.0 || health.journal.next_durable_sequence
            != next.0 {
            return Err(CheckpointError::SequenceInvariant);
        }
        if next.0 == 0 {
            return Err(CheckpointError::SequenceInvariant);
        }
        Ok(next.0 - 1)
    }

    /// Gives the engine up, which closes the journal producer.
    pub fn retire(self, storage: &mut EngineStorage<BATCH, EVENTS>)
        requires
            self.wf(),
            old(storage).wf(),
        ensures
            final(storage).wf(),
            final(storage).used == old(storage).used,
            final(storage).events@ == old(storage).events@,
            final(storage).journal.records() == old(storage).journal.records(),
            final(storage).journal.status() == self@.closed(old(storage).journal.status()),
    {
        let mut engine = self;
        engine.stop_admission(storage);
    }
}

/// What admission does: it journals the frame under the next sequence, or it
/// refuses the command, and a fatal refusal ends the engine.
pub open spec fn admitted(
    before: EngineView,
    records: Seq<RecordView>,
    status: JournalStatus,
    published: nat,
    event_capacity: usize,
    command: Command,
    check: GatewayCheck,
    frame: Seq<u8>,
    after: EngineView,
    new_records: Seq<RecordView>,
    new_status: JournalStatus,
    outcome: Result<AdmittedCommand, EngineError>,
) -> bool {
    match before.refusal(
        status,
        records.len(),
        published,
        event_capacity,
        command,
        check,
        frame,
    ) {
        Some(refusal) => {
            &&& outcome is Err
            &&& outcome->Err_0 == refusal.error
            &&& new_records == records
            &&& after == if refusal.fatal {
                before.ended()
            } else {
                before
            }
            &&& new_status == if refusal.fatal {
                before.closed(status)
            } else {
                status
            }
        },
        None => {
            &&& outcome is Ok
            &&& outcome->Ok_0.spec_command() == command
            &&& new_status == status
            &&& new_records == records.push(
                RecordView::sealed(SequenceNumber(before.writer->0.next_sequence), frame),
            )
            &&& after == (EngineView {
                writer: Some(
                    WriterView {
                        next_sequence: (before.writer->0.next_sequence + 1) as u64,
                        ..before.writer->0
                    },
                ),
                ..before
            })
        },
    }
}

} // verus!
