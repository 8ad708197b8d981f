//! Laws of event publication.

use vstd::prelude::*;

use crate::events::engine::{
    accepted_events, admission_fault, command_events, config_fault, trade_of, BookTop,
};
use crate::events::{
    CommandIdentity, CommandKind, Event, EventEngineConfigError, EventEngineError, EventId,
    GatewayError, GatewayOutcome,
};
use crate::types::{
    AccountId, Command, ExecutionReport, InstrumentId, OrderId, SequenceNumber,
};

verus! {

/// The ordinals of a batch count its events from zero, and every event carries
/// the sequence of the command.
pub proof fn law_ordinals_count_events(
    command: CommandIdentity,
    sequence: SequenceNumber,
    before: BookTop,
    after: BookTop,
    reports: Seq<ExecutionReport>,
    result: Result<GatewayOutcome, GatewayError>,
    index: int,
)
    requires
        reports.len() <= u16::MAX - 1,
        command_events(command, sequence, before, after, reports, result) is Ok,
        0 <= index < command_events(command, sequence, before, after, reports, result)->Ok_0.len(),
    ensures
        command_events(command, sequence, before, after, reports, result)->Ok_0[index].spec_id()
            == (EventId { command_sequence: sequence, ordinal: index as u16 }),
        index <= u16::MAX,
{
}

/// A batch of an accepted command is the terminal event, the trades in report
/// order, and a top-of-book event exactly where the top has changed.
pub proof fn law_batch_order(
    command: CommandIdentity,
    sequence: SequenceNumber,
    before: BookTop,
    after: BookTop,
    reports: Seq<ExecutionReport>,
    outcome: GatewayOutcome,
)
    ensures
        ({
            let events = accepted_events(command, sequence, before, after, reports, outcome);
            &&& events.len() == reports.len() + 1 + if before == after {
                0int
            } else {
                1int
            }
            &&& !(events[0] is Trade) && !(events[0] is TopOfBook) && !(events[0] is Rejected)
            &&& forall|i: int|
                1 <= i <= reports.len() ==> (#[trigger] events[i]) is Trade && events[i]
                    == trade_of(
                    reports[i - 1],
                    (EventId { command_sequence: sequence, ordinal: i as u16 }),
                )
            &&& before != after ==> events.last() is TopOfBook
            &&& (exists|i: int|
                0 <= i < events.len() && (#[trigger] events[i]) is TopOfBook) <==> before != after
        }),
{
    let events = accepted_events(command, sequence, before, after, reports, outcome);
    if before != after {
        assert(events[reports.len() as int + 1] is TopOfBook);
    } else {
        assert forall|i: int| 0 <= i < events.len() implies !((#[trigger] events[i])
            is TopOfBook) by {}
    }
}

/// A business rejection publishes one event, which says so.
pub proof fn law_rejection_publishes_one_event(
    command: CommandIdentity,
    sequence: SequenceNumber,
    before: BookTop,
    after: BookTop,
    reports: Seq<ExecutionReport>,
    error: GatewayError,
)
    requires
        error is Risk || error is Book,
    ensures
        ({
            let events = command_events(command, sequence, before, after, reports, Err(error));
            &&& events is Ok
            &&& events->Ok_0.len() == 1
            &&& events->Ok_0[0] is Rejected
        }),
{
}

/// Where a command was admitted and nothing else entered the queue since, its
/// events find room: an admitted command is never refused publication.
pub proof fn law_admission_reserves_a_slot(
    check: Result<(), GatewayError>,
    queued: nat,
    later: nat,
    capacity: usize,
)
    requires
        admission_fault(check, queued, capacity) is None,
        later <= queued,
    ensures
        later < capacity,
{
}

/// The sequence, the instrument, the order and the account that a command names.
pub open spec fn named_by(command: Command) -> (SequenceNumber, InstrumentId, OrderId, AccountId) {
    match command {
        Command::NewOrder(c) => (c.sequence, c.instrument_id, c.order_id, c.account_id),
        Command::CancelOrder(c) => (c.sequence, c.instrument_id, c.order_id, c.account_id),
        Command::ReplaceOrder(c) => (c.sequence, c.instrument_id, c.order_id, c.account_id),
    }
}

/// A command says what it is about: its own sequence, instrument, order and account,
/// and its kind.
pub proof fn law_commands_name_their_parts(command: Command)
    ensures
        ({
            let (sequence, instrument_id, order_id, account_id) = named_by(command);
            let identity = CommandIdentity::spec_from_command(command);
            &&& command.spec_sequence() == sequence
            &&& command.spec_instrument_id() == instrument_id
            &&& identity.instrument_id == instrument_id
            &&& identity.order_id == order_id
            &&& identity.account_id == account_id
            &&& command is NewOrder <==> identity.kind == CommandKind::NewOrder
            &&& command is CancelOrder <==> identity.kind == CommandKind::Cancel
            &&& command is ReplaceOrder <==> identity.kind == CommandKind::Replace
        }),
{
}

/// What the batch of an accepted command tells. The first event carries the outcome,
/// each trade what its report says, and the last one, where the top of the book has
/// changed, the bid and the ask after the command. Events are numbered from zero under
/// the command's sequence, and name the command's instrument.
pub proof fn law_accepted_batch_tells_the_outcome(
    command: Command,
    before: BookTop,
    after: BookTop,
    reports: Seq<ExecutionReport>,
    outcome: GatewayOutcome,
)
    requires
        reports.len() <= u16::MAX - 1,
    ensures
        ({
            let (sequence, instrument_id, order_id, account_id) = named_by(command);
            let published = command_events(
                CommandIdentity::spec_from_command(command),
                command.spec_sequence(),
                before,
                after,
                reports,
                Ok(outcome),
            );
            let events = published->Ok_0;
            let count = reports.len() as int;
            let changed = before.bid != after.bid || before.ask != after.ask;
            &&& published is Ok
            &&& events.len() == if changed {
                count + 2
            } else {
                count + 1
            }
            &&& match outcome {
                GatewayOutcome::NewOrder(summary) => {
                    &&& events[0] matches Event::Accepted(event)
                    &&& event.id.command_sequence == sequence
                    &&& event.id.ordinal == 0
                    &&& event.order_id == order_id
                    &&& event.account_id == account_id
                    &&& event.instrument_id == instrument_id
                    &&& event.state == summary.state
                    &&& event.filled_quantity == summary.filled_quantity
                    &&& event.resting_quantity == summary.resting_quantity
                    &&& event.discarded_quantity == summary.discarded_quantity
                },
                GatewayOutcome::Cancelled(cancelled) => {
                    &&& events[0] matches Event::Cancelled(event)
                    &&& event.id.command_sequence == sequence
                    &&& event.id.ordinal == 0
                    &&& event.order_id == cancelled.order_id
                    &&& event.account_id == cancelled.account_id
                    &&& event.instrument_id == instrument_id
                    &&& event.quantity == cancelled.quantity
                },
                GatewayOutcome::Replaced(replaced) => {
                    &&& events[0] matches Event::Replaced(event)
                    &&& event.id.command_sequence == sequence
                    &&& event.id.ordinal == 0
                    &&& event.order_id == replaced.order_id
                    &&& event.account_id == replaced.account_id
                    &&& event.instrument_id == instrument_id
                    &&& event.old_quantity == replaced.old_quantity
                    &&& event.new_quantity == replaced.new_quantity
                    &&& event.price == replaced.price
                    &&& event.priority_lost == replaced.priority_lost
                },
            }
            &&& forall|i: int|
                0 <= i < count ==> {
                    let report = #[trigger] reports[i];
                    &&& events[i + 1] matches Event::Trade(event)
                    &&& event.id.command_sequence == sequence
                    &&& event.id.ordinal == i + 1
                    &&& event.maker_order_id == report.maker_order_id
                    &&& event.taker_order_id == report.taker_order_id
                    &&& event.instrument_id == report.instrument_id
                    &&& event.price == report.price
                    &&& event.quantity == report.quantity
                }
            &&& changed ==> {
                &&& events[count + 1] matches Event::TopOfBook(event)
                &&& event.id.command_sequence == sequence
                &&& event.id.ordinal == count + 1
                &&& event.instrument_id == instrument_id
                &&& event.bid == after.bid
                &&& event.ask == after.ask
            }
        }),
{
}

/// What is published for a command that the gateway does not accept. A rejection by
/// risk or by the book gives one event with the reason and what the command names;
/// any other error is handed on, and nothing is published.
pub proof fn law_refused_command_tells_the_reason(
    command: Command,
    before: BookTop,
    after: BookTop,
    reports: Seq<ExecutionReport>,
    error: GatewayError,
)
    ensures
        ({
            let (sequence, instrument_id, order_id, account_id) = named_by(command);
            let published = command_events(
                CommandIdentity::spec_from_command(command),
                command.spec_sequence(),
                before,
                after,
                reports,
                Err(error),
            );
            let rejection = match error {
                GatewayError::Risk(reason) => Some(reason),
                GatewayError::Book(reason) => Some(reason),
                _ => None,
            };
            match rejection {
                Some(reason) => {
                    &&& published is Ok
                    &&& published->Ok_0.len() == 1
                    &&& published->Ok_0[0] matches Event::Rejected(event)
                    &&& event.id.command_sequence == sequence
                    &&& event.id.ordinal == 0
                    &&& event.order_id == order_id
                    &&& event.account_id == account_id
                    &&& event.instrument_id == instrument_id
                    &&& event.reason == reason
                    &&& event.command == match command {
                        Command::NewOrder(_) => CommandKind::NewOrder,
                        Command::CancelOrder(_) => CommandKind::Cancel,
                        Command::ReplaceOrder(_) => CommandKind::Replace,
                    }
                },
                None => published == Err::<Seq<Event>, _>(EventEngineError::Gateway(error)),
            }
        }),
{
}

/// A command is admitted exactly when the gateway has nothing against its sequence and
/// the event queue has a free place. The gateway's objection comes first.
pub proof fn law_admission_needs_sequence_and_room(
    check: Result<(), GatewayError>,
    queued: nat,
    capacity: usize,
)
    ensures
        admission_fault(check, queued, capacity) is None <==> check is Ok && queued < capacity,
        check is Err ==> admission_fault(check, queued, capacity) == Some(
            EventEngineError::Gateway(check->Err_0),
        ),
        check is Ok && queued >= capacity ==> admission_fault(check, queued, capacity) == Some(
            EventEngineError::Backpressured,
        ),
{
}

/// An engine can be configured exactly when every event of the largest command has an
/// ordinal and a place in the batch: the reports, one terminal event and one top.
pub proof fn law_configuration_fits_the_largest_command(reports: usize, batch: usize)
    ensures
        config_fault(reports, batch) is None <==> reports + 1 <= u16::MAX && reports + 2 <= batch,
        reports + 1 > u16::MAX <==> config_fault(reports, batch) == Some(
            EventEngineConfigError::TooManyEvents,
        ),
{
}

} // verus!
