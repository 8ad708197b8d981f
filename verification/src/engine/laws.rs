//! Laws of the engine lifecycle.

use vstd::prelude::*;

use crate::engine::builder::{fresh_risk, registrations, zero_capacity};
use crate::engine::lifecycle::{admitted, EngineView, GatewayCheck};
use crate::engine::{CheckpointError, EngineError, EngineState};
use crate::events::engine::AdmittedCommand;
use crate::events::laws::{law_commands_name_their_parts, named_by};
use crate::events::{EventEngineError, GatewayError};
use crate::journal::channel::JournalStatus;
use crate::journal::laws::lemma_sealed;
use crate::journal::record::RecordView;
use crate::journal::JournalError;
use crate::risk::limit_laws::{law_registration, unregistered};
use crate::risk::RiskLimits;
use crate::types::{AccountId, Command, SequenceNumber};

verus! {

/// A refused command is not journaled and consumes no sequence: whatever the
/// reason, the journal is as it was, and the engine has either not changed or
/// has failed for good.
pub proof fn law_refusal_consumes_nothing(
    before: EngineView,
    records: Seq<RecordView>,
    status: JournalStatus,
    published: nat,
    event_capacity: usize,
    command: Command,
    check: GatewayCheck,
    frame: Seq<u8>,
    after: EngineView,
    new_records: Seq<RecordView>,
    new_status: JournalStatus,
    outcome: Result<AdmittedCommand, EngineError>,
)
    requires
        admitted(
            before,
            records,
            status,
            published,
            event_capacity,
            command,
            check,
            frame,
            after,
            new_records,
            new_status,
            outcome,
        ),
        outcome is Err,
    ensures
        new_records == records,
        after == before && new_status == status || after == before.ended(),
        new_status.next_written_sequence == status.next_written_sequence,
        new_status.next_durable_sequence == status.next_durable_sequence,
{
}

/// A command is journaled before it is applied, under the sequence that the
/// gateway expects, and only where the engine is running.
pub proof fn law_admission_journals_first(
    before: EngineView,
    records: Seq<RecordView>,
    status: JournalStatus,
    published: nat,
    event_capacity: usize,
    command: Command,
    check: GatewayCheck,
    frame: Seq<u8>,
    after: EngineView,
    new_records: Seq<RecordView>,
    new_status: JournalStatus,
    outcome: Result<AdmittedCommand, EngineError>,
)
    requires
        admitted(
            before,
            records,
            status,
            published,
            event_capacity,
            command,
            check,
            frame,
            after,
            new_records,
            new_status,
            outcome,
        ),
        outcome is Ok,
    ensures
        before.state(status) == EngineState::Running,
        new_records == records.push(RecordView::sealed(check.expected, frame)),
        after.state(new_status) == EngineState::Running,
        after.writer->0.next_sequence == check.expected.0 + 1,
{
}

/// Failure is final: an engine that has failed, or whose persistence has, admits
/// no command again.
pub proof fn law_failure_is_final(
    engine: EngineView,
    status: JournalStatus,
    journaled: nat,
    published: nat,
    event_capacity: usize,
    command: Command,
    check: GatewayCheck,
    frame: Seq<u8>,
)
    requires
        engine.state(status) == EngineState::Failed,
    ensures
        ({
            let refusal = engine.refusal(
                status,
                journaled,
                published,
                event_capacity,
                command,
                check,
                frame,
            );
            &&& refusal is Some
            &&& refusal->0.error == EngineError::Failed || refusal->0.error
                == EngineError::PersistenceFailed
            &&& (if refusal->0.fatal {
                engine.ended()
            } else {
                engine
            }).failed
        }),
{
}

/// Stopping twice is stopping once.
pub proof fn law_stopping_twice_is_harmless(engine: EngineView, status: JournalStatus)
    ensures
        engine.stopped().stopped() == engine.stopped(),
        engine.stopped().closed(engine.closed(status)) == engine.closed(status),
{
}

/// A checkpoint covers every command: it is taken only where admission has
/// stopped, and all that the gateway has applied is written and durable.
pub proof fn law_checkpoint_is_durable(
    engine: EngineView,
    status: JournalStatus,
    next: SequenceNumber,
)
    ensures
        engine.checkpoint_fault(status, next) is None <==> {
            &&& engine.state(status) == EngineState::Stopped
            &&& status.next_written_sequence == next.0
            &&& status.next_durable_sequence == next.0
            &&& next.0 > 0
        },
{
}

/// What admission answers, each answer with its cause: the first of the causes that
/// holds. A command without one is journaled behind the others, byte for byte, under
/// the sequence that the gateway expects. Lost persistence, a sequence that writer and
/// gateway do not agree on, and a broken risk state end the engine for good and close
/// its journal; any other refusal changes nothing.
pub proof fn law_admission_answers(
    before: EngineView,
    records: Seq<RecordView>,
    status: JournalStatus,
    published: nat,
    event_capacity: usize,
    command: Command,
    check: GatewayCheck,
    frame: Seq<u8>,
    after: EngineView,
    new_records: Seq<RecordView>,
    new_status: JournalStatus,
    outcome: Result<AdmittedCommand, EngineError>,
)
    requires
        records.len() <= 1024,
        frame.len() <= usize::MAX,
        admitted(
            before,
            records,
            status,
            published,
            event_capacity,
            command,
            check,
            frame,
            after,
            new_records,
            new_status,
            outcome,
        ),
    ensures
        ({
            let instrument = named_by(command).1;
            let alive = !before.failed && !status.poisoned;
            let open = alive && before.writer is Some;
            let ours = open && instrument == before.instrument;
            let next = before.writer->0.next_sequence;
            let agreed = ours && next == check.expected.0;
            let granted = agreed && check.sequence is Ok;
            let room = granted && published < event_capacity;
            let numbered = room && next < u64::MAX;
            let sized = numbered && frame.len() <= 46;
            let accepted = sized && records.len() < 1024;
            let broken = agreed && check.sequence matches Err(GatewayError::RiskState(_));
            let fatal = (!before.failed && status.poisoned) || (ours && !agreed) || broken;
            &&& before.failed <==> outcome is Err && outcome->Err_0 == EngineError::Failed
            &&& !before.failed && status.poisoned <==> outcome is Err && outcome->Err_0
                == EngineError::PersistenceFailed
            &&& alive && !open <==> outcome is Err && outcome->Err_0 == EngineError::Stopped
            &&& open && !ours <==> outcome is Err && outcome->Err_0
                == EngineError::UnknownInstrument(instrument)
            &&& ours && !agreed <==> outcome is Err && outcome->Err_0
                == EngineError::SequenceInvariant
            &&& agreed && !granted ==> outcome is Err && outcome->Err_0 == EngineError::Admission(
                EventEngineError::Gateway(check.sequence->Err_0),
            )
            &&& granted && !room <==> outcome is Err && outcome->Err_0 == EngineError::Admission(
                EventEngineError::Backpressured,
            )
            &&& room && !numbered <==> outcome is Err && outcome->Err_0 == EngineError::Journal(
                JournalError::SequenceOverflow,
            )
            &&& numbered && !sized <==> outcome is Err && outcome->Err_0 == EngineError::Journal(
                JournalError::PayloadTooLarge { len: frame.len() as usize },
            )
            &&& sized && !accepted <==> outcome is Err && outcome->Err_0 == EngineError::Journal(
                JournalError::Saturated,
            )
            &&& accepted <==> outcome is Ok
            &&& accepted ==> {
                let record = new_records[records.len() as int];
                &&& outcome->Ok_0.spec_command() == command
                &&& new_records.len() == records.len() + 1
                &&& new_records.take(records.len() as int) == records
                &&& record.sequence == check.expected
                &&& record.content() == frame
                &&& record.verified()
                &&& after.writer is Some
                &&& after.writer->0.next_sequence == next + 1
                &&& after.writer->0.controlled == before.writer->0.controlled
                &&& after.instrument == before.instrument
                &&& !after.failed
                &&& new_status == status
            }
            &&& !accepted ==> new_records == records && after.instrument == before.instrument
            &&& fatal ==> after.failed && after.writer is None
            &&& fatal && before.writer is Some && before.writer->0.controlled
                ==> new_status.producer_closed
            &&& !accepted && !fatal ==> after == before && new_status == status
            &&& new_status.next_written_sequence == status.next_written_sequence
            &&& new_status.next_durable_sequence == status.next_durable_sequence
            &&& new_status.poisoned == status.poisoned
            &&& new_status.shutdown_complete == status.shutdown_complete
        }),
{
    law_commands_name_their_parts(command);
    if outcome is Ok {
        lemma_sealed(check.expected, frame);
        assert(new_records.take(records.len() as int) =~= records);
    }
}

/// The state of an engine: failed once it or its persistence has, running while it has
/// a writer, and stopped once everything behind the writer is stored.
pub proof fn law_state_is_told(engine: EngineView, status: JournalStatus)
    ensures
        ({
            let failed = engine.failed || status.poisoned;
            let state = engine.state(status);
            &&& failed <==> state == EngineState::Failed
            &&& !failed && engine.writer is Some <==> state == EngineState::Running
            &&& !failed && engine.writer is None && !status.shutdown_complete <==> state
                == EngineState::Stopping
            &&& !failed && engine.writer is None && status.shutdown_complete <==> state
                == EngineState::Stopped
        }),
{
}

/// Why no checkpoint is taken, each reason with its cause: the first of the causes
/// that holds.
pub proof fn law_checkpoint_faults(
    engine: EngineView,
    status: JournalStatus,
    next: SequenceNumber,
)
    ensures
        ({
            let fault = engine.checkpoint_fault(status, next);
            let failed = engine.failed || status.poisoned;
            let open = !failed && engine.writer is Some;
            let pending = !failed && engine.writer is None && !status.shutdown_complete;
            let settled = !failed && engine.writer is None && status.shutdown_complete;
            let covered = status.next_written_sequence == next.0 && status.next_durable_sequence
                == next.0 && next.0 > 0;
            &&& failed <==> fault == Some(CheckpointError::Failed)
            &&& open <==> fault == Some(CheckpointError::AdmissionOpen)
            &&& pending <==> fault == Some(CheckpointError::PersistencePending)
            &&& settled && !covered <==> fault == Some(CheckpointError::SequenceInvariant)
            &&& settled && covered <==> fault is None
        }),
{
}

/// An engine that is stopped or has failed admits nothing any more: it has no writer,
/// and its journal, where it has a status, is closed. It keeps its instrument, and
/// only a failure makes it fail.
pub proof fn law_stopping_closes_the_journal(engine: EngineView, status: JournalStatus)
    ensures
        engine.stopped().writer is None,
        engine.stopped().failed == engine.failed,
        engine.stopped().instrument == engine.instrument,
        engine.ended().writer is None,
        engine.ended().failed,
        engine.ended().instrument == engine.instrument,
        engine.writer is Some && engine.writer->0.controlled ==> engine.closed(
            status,
        ).producer_closed,
        engine.writer is None ==> engine.closed(status) == status,
        engine.closed(status).next_written_sequence == status.next_written_sequence,
        engine.closed(status).next_durable_sequence == status.next_durable_sequence,
        engine.closed(status).poisoned == status.poisoned,
        engine.closed(status).shutdown_complete == status.shutdown_complete,
{
}

/// The accounts of a new engine are those that it was given, in their order, each with
/// its limits and without position, exposure or orders. They are accepted exactly when
/// they fit, no two have the same identifier, and each has limits that some order can
/// meet.
pub proof fn law_accounts_are_registered(
    accounts: Seq<(AccountId, RiskLimits)>,
    orders: nat,
    capacity: nat,
)
    ensures
        ({
            let built = registrations(fresh_risk(orders), accounts, capacity);
            let sensible = {
                &&& accounts.len() <= capacity
                &&& forall|i: int|
                    0 <= i < accounts.len() ==> {
                        let limits = (#[trigger] accounts[i]).1;
                        &&& limits.max_quantity.0 > 0
                        &&& limits.max_open_orders > 0
                        &&& limits.minimum_price.0 <= limits.maximum_price.0
                    }
                &&& forall|i: int, j: int|
                    0 <= i < j < accounts.len() ==> (#[trigger] accounts[i]).0 != (
                    #[trigger] accounts[j]).0
            };
            &&& built is Ok <==> sensible
            &&& built is Ok ==> {
                let risk = built->Ok_0;
                &&& risk.accounts.len() == accounts.len()
                &&& forall|i: int|
                    0 <= i < accounts.len() ==> {
                        let account = #[trigger] risk.accounts[i];
                        &&& account.id == accounts[i].0
                        &&& account.limits == accounts[i].1
                        &&& account.settled_position == 0
                        &&& account.reserved_buys == 0
                        &&& account.reserved_sells == 0
                        &&& account.open_orders == 0
                        &&& !account.killed
                    }
                &&& risk.slots.len() == orders
                &&& forall|s: int| 0 <= s < orders ==> (#[trigger] risk.slots[s]) is None
                &&& risk.free == fresh_risk(orders).free
                &&& risk.maximum_order_id is None
                &&& !risk.killed
            }
        }),
    decreases accounts.len(),
{
    if accounts.len() > 0 {
        let init = accounts.drop_last();
        let (id, limits) = accounts.last();
        let last = accounts.len() - 1;
        law_accounts_are_registered(init, orders, capacity);
        let built = registrations(fresh_risk(orders), init, capacity);
        assert(forall|i: int| 0 <= i < init.len() ==> #[trigger] init[i] == accounts[i]);
        assert(accounts[last] == (id, limits));
        if built is Ok {
            let risk = built->Ok_0;
            law_registration(risk, id, limits, capacity);
            if registrations(fresh_risk(orders), accounts, capacity) is Ok {
                assert forall|i: int, j: int| 0 <= i < j < accounts.len() implies (
                #[trigger] accounts[i]).0 != (#[trigger] accounts[j]).0 by {
                    if j == last {
                        assert(risk.accounts[i].id != id);
                    } else {
                        assert(init[i].0 != init[j].0);
                    }
                }
                assert forall|i: int| 0 <= i < accounts.len() implies {
                    let limits = (#[trigger] accounts[i]).1;
                    &&& limits.max_quantity.0 > 0
                    &&& limits.max_open_orders > 0
                    &&& limits.minimum_price.0 <= limits.maximum_price.0
                } by {
                    if i < last {
                        assert(init[i] == accounts[i]);
                    }
                }
            }
            if accounts.len() <= capacity && (forall|i: int, j: int|
                0 <= i < j < accounts.len() ==> (#[trigger] accounts[i]).0 != (
                #[trigger] accounts[j]).0) {
                assert(unregistered(risk, id)) by {
                    assert forall|i: int| 0 <= i < risk.accounts.len() implies (
                    #[trigger] risk.accounts[i]).id != id by {
                        assert(accounts[i].0 != accounts[last].0);
                    }
                }
            }
        } else {
            if (forall|i: int, j: int|
                0 <= i < j < accounts.len() ==> (#[trigger] accounts[i]).0 != (
                #[trigger] accounts[j]).0) && (forall|i: int|
                0 <= i < accounts.len() ==> {
                    let limits = (#[trigger] accounts[i]).1;
                    &&& limits.max_quantity.0 > 0
                    &&& limits.max_open_orders > 0
                    &&& limits.minimum_price.0 <= limits.maximum_price.0
                }) && accounts.len() <= capacity {
                assert forall|i: int, j: int| 0 <= i < j < init.len() implies (
                #[trigger] init[i]).0 != (#[trigger] init[j]).0 by {
                    assert(accounts[i].0 != accounts[j].0);
                }
                assert forall|i: int| 0 <= i < init.len() implies {
                    let limits = (#[trigger] init[i]).1;
                    &&& limits.max_quantity.0 > 0
                    &&& limits.max_open_orders > 0
                    &&& limits.minimum_price.0 <= limits.maximum_price.0
                } by {
                    assert(accounts[i] == init[i]);
                }
                assert(false);
            }
        }
    }
}

/// No engine is built with a capacity of nothing.
pub proof fn law_capacities_are_positive(
    accounts: usize,
    risk_orders: usize,
    levels: usize,
    orders: usize,
    reports: usize,
)
    ensures
        !zero_capacity(accounts, risk_orders, levels, orders, reports) <==> accounts > 0
            && risk_orders > 0 && levels > 0 && orders > 0 && reports > 0,
{
}

} // verus!
