//! Publication of one event batch for each command.

use vstd::prelude::*;

use crate::book::TopLevel;
use crate::events::batch::EventBatch;
use crate::events::{
    Accepted, Cancelled, CommandIdentity, Event, EventEngineConfigError, EventEngineError,
    EventId, GatewayError, GatewayOutcome, ParseError, Rejected, Replaced, TopOfBook, Trade,
};
use crate::queue::BoundedQueue;
use crate::types::{Command, ExecutionReport, ReportBuffer, SequenceNumber};

verus! {

/// The best bid and the best ask.
#[derive(Clone, Copy, Debug, PartialEq, Eq, Structural)]
pub struct BookTop {
    pub bid: Option<TopLevel>,
    pub ask: Option<TopLevel>,
}

/// The event that says what became of the command.
pub open spec fn spec_terminal_event(
    outcome: GatewayOutcome,
    command: CommandIdentity,
    id: EventId,
) -> Event {
    match outcome {
        GatewayOutcome::NewOrder(summary) => Event::Accepted(
            Accepted {
                id,
                order_id: command.order_id,
                account_id: command.account_id,
                instrument_id: command.instrument_id,
                state: summary.state,
                filled_quantity: summary.filled_quantity,
                resting_quantity: summary.resting_quantity,
                discarded_quantity: summary.discarded_quantity,
            },
        ),
        GatewayOutcome::Cancelled(cancelled) => Event::Cancelled(
            Cancelled {
                id,
                order_id: cancelled.order_id,
                account_id: cancelled.account_id,
                instrument_id: command.instrument_id,
                quantity: cancelled.quantity,
            },
        ),
        GatewayOutcome::Replaced(replaced) => Event::Replaced(
            Replaced {
                id,
                order_id: replaced.order_id,
                account_id: replaced.account_id,
                instrument_id: command.instrument_id,
                old_quantity: replaced.old_quantity,
                new_quantity: replaced.new_quantity,
                price: replaced.price,
                priority_lost: replaced.priority_lost,
            },
        ),
    }
}

/// The event that says what became of the command.
pub fn terminal_event(
    outcome: GatewayOutcome,
    command: CommandIdentity,
    sequence: SequenceNumber,
    ordinal: u16,
) -> (event: Event)
    ensures
        event == spec_terminal_event(
            outcome,
            command,
            (EventId { command_sequence: sequence, ordinal }),
        ),
{
    let id = EventId { command_sequence: sequence, ordinal };
    match outcome {
        GatewayOutcome::NewOrder(summary) => Event::Accepted(
            Accepted {
                id,
                order_id: command.order_id,
                account_id: command.account_id,
                instrument_id: command.instrument_id,
                state: summary.state,
                filled_quantity: summary.filled_quantity,
                resting_quantity: summary.resting_quantity,
                discarded_quantity: summary.discarded_quantity,
            },
        ),
        GatewayOutcome::Cancelled(cancelled) => Event::Cancelled(
            Cancelled {
                id,
                order_id: cancelled.order_id,
                account_id: cancelled.account_id,
                instrument_id: command.instrument_id,
                quantity: cancelled.quantity,
            },
        ),
        GatewayOutcome::Replaced(replaced) => Event::Replaced(
            Replaced {
                id,
                order_id: replaced.order_id,
                account_id: replaced.account_id,
                instrument_id: command.instrument_id,
                old_quantity: replaced.old_quantity,
                new_quantity: replaced.new_quantity,
                price: replaced.price,
                priority_lost: replaced.priority_lost,
            },
        ),
    }
}

/// The trade that a report tells of.
pub open spec fn trade_of(report: ExecutionReport, id: EventId) -> Event {
    Event::Trade(
        Trade {
            id,
            maker_order_id: report.maker_order_id,
            taker_order_id: report.taker_order_id,
            instrument_id: report.instrument_id,
            price: report.price,
            quantity: report.quantity,
        },
    )
}

/// The events of an accepted command: the terminal event, then one trade for
/// each report, then the new top of the book where it has changed.
pub open spec fn accepted_events(
    command: CommandIdentity,
    sequence: SequenceNumber,
    before: BookTop,
    after: BookTop,
    reports: Seq<ExecutionReport>,
    outcome: GatewayOutcome,
) -> Seq<Event> {
    let id = |ordinal: int| EventId { command_sequence: sequence, ordinal: ordinal as u16 };
    seq![spec_terminal_event(outcome, command, id(0))] + Seq::new(
        reports.len(),
        |i: int| trade_of(reports[i], id(i + 1)),
    ) + if before == after {
        Seq::<Event>::empty()
    } else {
        seq![
            Event::TopOfBook(
                TopOfBook {
                    id: id(reports.len() as int + 1),
                    instrument_id: command.instrument_id,
                    bid: after.bid,
                    ask: after.ask,
                },
            ),
        ]
    }
}

/// The one event of a rejected command.
pub open spec fn rejected_event(
    command: CommandIdentity,
    sequence: SequenceNumber,
    reason: crate::types::RejectReason,
) -> Event {
    Event::Rejected(
        Rejected {
            id: EventId { command_sequence: sequence, ordinal: 0 },
            command: command.kind,
            order_id: command.order_id,
            account_id: command.account_id,
            instrument_id: command.instrument_id,
            reason,
        },
    )
}

/// The events that are published for a command, or the error where none are.
pub open spec fn command_events(
    command: CommandIdentity,
    sequence: SequenceNumber,
    before: BookTop,
    after: BookTop,
    reports: Seq<ExecutionReport>,
    result: Result<GatewayOutcome, GatewayError>,
) -> Result<Seq<Event>, EventEngineError> {
    match result {
        Ok(outcome) => Ok(accepted_events(command, sequence, before, after, reports, outcome)),
        Err(GatewayError::Risk(reason)) => Ok(seq![rejected_event(command, sequence, reason)]),
        Err(GatewayError::Book(reason)) => Ok(seq![rejected_event(command, sequence, reason)]),
        Err(error) => Err(EventEngineError::Gateway(error)),
    }
}

/// Admission and publication for one gateway. The event queue has room for one
/// batch before a command is handed to the gateway.
#[derive(Debug)]
pub struct BoundedEventEngine<const REPORTS: usize, const BATCH: usize, const QUEUE: usize> {
    _configured: (),
}

/// One command with checked sequence and event capacity. It stands for a free
/// slot of the event queue until it is applied.
#[must_use]
#[derive(Debug, PartialEq, Eq, Structural)]
pub struct AdmittedCommand {
    command: Command,
}

impl AdmittedCommand {
    pub closed spec fn spec_command(&self) -> Command {
        self.command
    }

    /// The command to hand to the gateway.
    #[must_use]
    pub fn command(&self) -> (command: Command)
        ensures
            command == self.spec_command(),
    {
        self.command
    }
}

/// What keeps an event engine from being configured, if anything does.
pub open spec fn config_fault(reports: usize, batch: usize) -> Option<EventEngineConfigError> {
    if reports > u16::MAX - 1 {
        Some(EventEngineConfigError::TooManyEvents)
    } else if batch < reports + 2 {
        Some(EventEngineConfigError::BatchTooSmall)
    } else {
        None
    }
}

/// Why a command is not admitted, given what the gateway says of its sequence,
/// if it is not.
pub open spec fn admission_fault(
    check: Result<(), GatewayError>,
    queued: nat,
    capacity: usize,
) -> Option<EventEngineError> {
    match check {
        Err(error) => Some(EventEngineError::Gateway(error)),
        Ok(()) => if queued >= capacity {
            Some(EventEngineError::Backpressured)
        } else {
            None
        },
    }
}

impl<const REPORTS: usize, const BATCH: usize, const QUEUE: usize> BoundedEventEngine<
    REPORTS,
    BATCH,
    QUEUE,
> {
    /// One batch can hold the largest command result.
    pub open spec fn wf(&self) -> bool {
        config_fault(REPORTS, BATCH) is None
    }

    /// Builds an engine when one batch can hold every report, one terminal event
    /// and one top-of-book event, and ordinals can number them all.
    pub fn try_new() -> (outcome: Result<Self, EventEngineConfigError>)
        ensures
            match config_fault(REPORTS, BATCH) {
                Some(error) => outcome is Err && outcome->Err_0 == error,
                None => outcome is Ok && outcome->Ok_0.wf(),
            },
    {
        if REPORTS > 65534 {
            return Err(EventEngineConfigError::TooManyEvents);
        }
        if BATCH < REPORTS + 2 {
            return Err(EventEngineConfigError::BatchTooSmall);
        }
        Ok(BoundedEventEngine { _configured: () })
    }

    /// Checks the gateway's answer on the sequence, then the event capacity.
    pub fn preflight(
        &self,
        queue: &BoundedQueue<EventBatch<BATCH>, QUEUE>,
        check: Result<(), GatewayError>,
    ) -> (outcome: Result<(), EventEngineError>)
        ensures
            outcome == match admission_fault(check, queue@.len(), QUEUE) {
                Some(error) => Err::<(), _>(error),
                None => Ok::<_, EventEngineError>(()),
            },
    {
        match check {
            Err(error) => Err(EventEngineError::Gateway(error)),
            Ok(()) => {
                if !queue.has_capacity() {
                    Err(EventEngineError::Backpressured)
                } else {
                    Ok(())
                }
            },
        }
    }

    /// Checks sequence and event capacity without applying the command. `check`
    /// is what the gateway says of the command's sequence.
    pub fn admit_command(
        &self,
        queue: &BoundedQueue<EventBatch<BATCH>, QUEUE>,
        command: Command,
        check: Result<(), GatewayError>,
    ) -> (outcome: Result<AdmittedCommand, EventEngineError>)
        ensures
            match admission_fault(check, queue@.len(), QUEUE) {
                Some(error) => outcome is Err && outcome->Err_0 == error,
                None => outcome is Ok && outcome->Ok_0.spec_command() == command,
            },
    {
        match self.preflight(queue, check) {
            Ok(()) => Ok(AdmittedCommand { command }),
            Err(error) => Err(error),
        }
    }

    /// Checks the command of a frame, given what the wire decoder made of it.
    pub fn admit_frame(
        &self,
        queue: &BoundedQueue<EventBatch<BATCH>, QUEUE>,
        parsed: Result<Command, ParseError>,
        check: Result<(), GatewayError>,
    ) -> (outcome: Result<AdmittedCommand, EventEngineError>)
        ensures
            match parsed {
                Err(error) => outcome is Err && outcome->Err_0 == EventEngineError::Gateway(
                    GatewayError::Parse(error),
                ),
                Ok(command) => match admission_fault(check, queue@.len(), QUEUE) {
                    Some(error) => outcome is Err && outcome->Err_0 == error,
                    None => outcome is Ok && outcome->Ok_0.spec_command() == command,
                },
            },
    {
        match parsed {
            Err(error) => Err(EventEngineError::Gateway(GatewayError::Parse(error))),
            Ok(command) => self.admit_command(queue, command, check),
        }
    }

    /// The batch of an accepted command.
    fn accepted_batch(
        &self,
        command: CommandIdentity,
        sequence: SequenceNumber,
        before: BookTop,
        after: BookTop,
        reports: &ReportBuffer<REPORTS>,
        outcome: GatewayOutcome,
    ) -> (batch: Result<EventBatch<BATCH>, EventEngineError>)
        requires
            self.wf(),
        ensures
            batch is Ok,
            batch->Ok_0.wf(),
            batch->Ok_0@ == accepted_events(command, sequence, before, after, reports@, outcome),
    {
        let ghost expected = accepted_events(command, sequence, before, after, reports@, outcome);
        let total: usize = reports.len();
        let mut batch: EventBatch<BATCH> = EventBatch::new();
        if let Err(error) = batch.try_push(terminal_event(outcome, command, sequence, 0)) {
            return Err(EventEngineError::EventCapacityInvariant);
        }
        let mut index: usize = 0;
        assert(batch@ =~= expected.take(1));
        while index < total
            invariant
                self.wf(),
                index <= total == reports@.len() <= REPORTS,
                batch.wf(),
                expected == accepted_events(command, sequence, before, after, reports@, outcome),
                batch@ == expected.take(index + 1),
            decreases total - index,
        {
            let report = match reports.get(index) {
                Some(report) => report,
                None => vstd::pervasive::unreached(),
            };
            let event = Event::Trade(
                Trade {
                    id: EventId { command_sequence: sequence, ordinal: (index + 1) as u16 },
                    maker_order_id: report.maker_order_id,
                    taker_order_id: report.taker_order_id,
                    instrument_id: report.instrument_id,
                    price: report.price,
                    quantity: report.quantity,
                },
            );
            if let Err(error) = batch.try_push(event) {
                return Err(EventEngineError::EventCapacityInvariant);
            }
            assert(event == expected[index + 1]);
            assert(expected.take(index + 2) =~= expected.take(index + 1).push(event));
            index = index + 1;
        }
        if before != after {
            let event = Event::TopOfBook(
                TopOfBook {
                    id: EventId { command_sequence: sequence, ordinal: (total + 1) as u16 },
                    instrument_id: command.instrument_id,
                    bid: after.bid,
                    ask: after.ask,
                },
            );
            if let Err(error) = batch.try_push(event) {
                return Err(EventEngineError::EventCapacityInvariant);
            }
            assert(event == expected[total + 1]);
            assert(expected =~= expected.take(total + 1).push(event));
        } else {
            assert(expected =~= expected.take(total + 1));
        }
        Ok(batch)
    }

    /// Builds the events of one command from the gateway's answer and publishes
    /// them as one batch. A fatal gateway error publishes nothing.
    pub fn publish_result(
        &self,
        queue: &mut BoundedQueue<EventBatch<BATCH>, QUEUE>,
        command: CommandIdentity,
        sequence: SequenceNumber,
        before: BookTop,
        after: BookTop,
        reports: &ReportBuffer<REPORTS>,
        result: Result<GatewayOutcome, GatewayError>,
    ) -> (outcome: Result<(), EventEngineError>)
        requires
            self.wf(),
            old(queue).wf(),
        ensures
            final(queue).wf(),
            match command_events(command, sequence, before, after, reports@, result) {
                Err(error) => {
                    &&& outcome == Err::<(), _>(error)
                    &&& final(queue)@ == old(queue)@
                },
                Ok(events) => if old(queue)@.len() >= QUEUE {
                    &&& outcome == Err::<(), _>(EventEngineError::PublicationInvariant)
                    &&& final(queue)@ == old(queue)@
                } else {
                    &&& outcome == Ok::<_, EventEngineError>(())
                    &&& final(queue)@.len() == old(queue)@.len() + 1
                    &&& final(queue)@.drop_last() == old(queue)@
                    &&& final(queue)@.last()@ == events
                },
            },
    {
        let ghost queued = queue@;
        let batch: EventBatch<BATCH> = match result {
            Ok(accepted) => match self.accepted_batch(
                command,
                sequence,
                before,
                after,
                reports,
                accepted,
            ) {
                Ok(batch) => batch,
                Err(error) => {
                    return Err(error);
                },
            },
            Err(GatewayError::Risk(reason)) | Err(GatewayError::Book(reason)) => {
                let event = Event::Rejected(
                    Rejected {
                        id: EventId { command_sequence: sequence, ordinal: 0 },
                        command: command.kind,
                        order_id: command.order_id,
                        account_id: command.account_id,
                        instrument_id: command.instrument_id,
                        reason,
                    },
                );
                let mut batch: EventBatch<BATCH> = EventBatch::new();
                if let Err(error) = batch.try_push(event) {
                    return Err(EventEngineError::EventCapacityInvariant);
                }
                assert(batch@ =~= seq![rejected_event(command, sequence, reason)]);
                batch
            },
            Err(error) => {
                return Err(EventEngineError::Gateway(error));
            },
        };
        match queue.try_push(batch) {
            Ok(()) => {
                assert(queue@.drop_last() =~= queued);
                Ok(())
            },
            Err(refused) => Err(EventEngineError::PublicationInvariant),
        }
    }

    /// Publishes the events of an admitted command from the gateway's answer.
    pub fn apply(
        &self,
        queue: &mut BoundedQueue<EventBatch<BATCH>, QUEUE>,
        admitted: AdmittedCommand,
        before: BookTop,
        after: BookTop,
        reports: &ReportBuffer<REPORTS>,
        result: Result<GatewayOutcome, GatewayError>,
    ) -> (outcome: Result<(), EventEngineError>)
        requires
            self.wf(),
            old(queue).wf(),
        ensures
            final(queue).wf(),
            match command_events(
                CommandIdentity::spec_from_command(admitted.spec_command()),
                admitted.spec_command().spec_sequence(),
                before,
                after,
                reports@,
                result,
            ) {
                Err(error) => {
                    &&& outcome == Err::<(), _>(error)
                    &&& final(queue)@ == old(queue)@
                },
                Ok(events) => if old(queue)@.len() >= QUEUE {
                    &&& outcome == Err::<(), _>(EventEngineError::PublicationInvariant)
                    &&& final(queue)@ == old(queue)@
                } else {
                    &&& outcome == Ok::<_, EventEngineError>(())
                    &&& final(queue)@.len() == old(queue)@.len() + 1
                    &&& final(queue)@.drop_last() == old(queue)@
                    &&& final(queue)@.last()@ == events
                },
            },
            outcome is Ok && result is Ok && (before.bid != after.bid || before.ask != after.ask)
                ==> {
                &&& final(queue)@.last()@.last() matches Event::TopOfBook(top)
                &&& top.bid == after.bid
                &&& top.ask == after.ask
                &&& top.instrument_id == admitted.spec_command().spec_instrument_id()
            },
    {
        let command = admitted.command;
        self.publish_result(
            queue,
            CommandIdentity::from_command(command),
            command.sequence(),
            before,
            after,
            reports,
            result,
        )
    }
}

} // verus!
