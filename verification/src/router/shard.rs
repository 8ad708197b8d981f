//! One single-writer shard.

use vstd::prelude::*;

use crate::events::batch::EventBatch;
use crate::events::engine::{
    admission_fault, command_events, config_fault, AdmittedCommand, BookTop, BoundedEventEngine,
};
use crate::events::{CommandIdentity, EventEngineError, GatewayError, GatewayOutcome};
use crate::queue::BoundedQueue;
use crate::router::{InstrumentRoute, ShardConfigError, ShardError, ShardStep};
use crate::types::{Command, InstrumentId, ReportBuffer};

verus! {

/// Works off the commands of one instrument, one at a time: it takes a command,
/// has it admitted, and publishes what the gateway made of it.
pub struct MatchingShard<
    const REPORTS: usize,
    const BATCH: usize,
    const COMMAND_QUEUE: usize,
    const EVENT_QUEUE: usize,
> {
    route: InstrumentRoute,
    engine: BoundedEventEngine<REPORTS, BATCH, EVENT_QUEUE>,
    pending: Option<Command>,
}

/// The command that comes next: the one that was held back, else the oldest of
/// the queue.
pub open spec fn next_command(pending: Option<Command>, queued: Seq<Command>) -> Option<Command> {
    if pending is Some {
        pending
    } else if queued.len() > 0 {
        Some(queued[0])
    } else {
        None
    }
}

impl<
    const REPORTS: usize,
    const BATCH: usize,
    const COMMAND_QUEUE: usize,
    const EVENT_QUEUE: usize,
> MatchingShard<REPORTS, BATCH, COMMAND_QUEUE, EVENT_QUEUE> {
    pub closed spec fn spec_route(&self) -> InstrumentRoute {
        self.route
    }

    /// The command that is held back.
    pub closed spec fn pending(&self) -> Option<Command> {
        self.pending
    }

    pub closed spec fn wf(&self) -> bool {
        self.engine.wf()
    }

    /// Builds one shard for a gateway of the route's instrument, where an event
    /// batch can hold the configured report count.
    pub fn try_new(route: InstrumentRoute, gateway: InstrumentId) -> (outcome: Result<
        Self,
        ShardConfigError,
    >)
        ensures
            if route.instrument_id != gateway {
                &&& outcome is Err
                &&& outcome->Err_0 == (ShardConfigError::InstrumentMismatch {
                    route: route.instrument_id,
                    gateway,
                })
            } else if config_fault(REPORTS, BATCH) is Some {
                &&& outcome is Err
                &&& outcome->Err_0 == ShardConfigError::Events(config_fault(REPORTS, BATCH)->0)
            } else {
                &&& outcome is Ok
                &&& outcome->Ok_0.wf()
                &&& outcome->Ok_0.spec_route() == route
                &&& outcome->Ok_0.pending() is None
            },
    {
        if route.instrument_id != gateway {
            return Err(
                ShardConfigError::InstrumentMismatch { route: route.instrument_id, gateway },
            );
        }
        match BoundedEventEngine::try_new() {
            Ok(engine) => Ok(MatchingShard { route, engine, pending: None }),
            Err(error) => Err(ShardConfigError::Events(error)),
        }
    }

    /// Takes the next command, if there is one. A command of another instrument
    /// is refused.
    pub fn take_command(&mut self, commands: &mut BoundedQueue<Command, COMMAND_QUEUE>) -> (
    outcome: Result<Option<Command>, ShardError>)
        requires
            old(self).wf(),
            old(commands).wf(),
        ensures
            final(self).wf(),
            final(commands).wf(),
            final(self).spec_route() == old(self).spec_route(),
            final(self).pending() is None,
            final(commands)@ == if old(self).pending() is None && old(commands)@.len() > 0 {
                old(commands)@.skip(1)
            } else {
                old(commands)@
            },
            match next_command(old(self).pending(), old(commands)@) {
                None => outcome is Ok && outcome->Ok_0 is None,
                Some(command) => if command.spec_instrument_id() == old(self).spec_route().instrument_id {
                    outcome is Ok && outcome->Ok_0 == Some(command)
                } else {
                    &&& outcome is Err
                    &&& outcome->Err_0 == (ShardError::Misrouted {
                        expected: old(self).spec_route().instrument_id,
                        received: command.spec_instrument_id(),
                    })
                },
            },
    {
        let next = match self.pending {
            Some(command) => Some(command),
            None => commands.try_pop(),
        };
        self.pending = None;
        let command = match next {
            Some(command) => command,
            None => {
                return Ok(None);
            },
        };
        let received = command.instrument_id();
        if received != self.route.instrument_id {
            return Err(
                ShardError::Misrouted { expected: self.route.instrument_id, received },
            );
        }
        Ok(Some(command))
    }

    /// Has a command admitted, given what the gateway says of its sequence. Event
    /// backpressure holds the command back for the next call.
    pub fn admit_command(
        &mut self,
        events: &BoundedQueue<EventBatch<BATCH>, EVENT_QUEUE>,
        command: Command,
        check: Result<(), GatewayError>,
    ) -> (outcome: Result<AdmittedCommand, ShardError>)
        requires
            old(self).wf(),
        ensures
            final(self).wf(),
            final(self).spec_route() == old(self).spec_route(),
            match admission_fault(check, events@.len(), EVENT_QUEUE) {
                None => {
                    &&& outcome is Ok
                    &&& outcome->Ok_0.spec_command() == command
                    &&& final(self).pending() == old(self).pending()
                },
                Some(EventEngineError::Backpressured) => {
                    &&& outcome is Err
                    &&& outcome->Err_0 == ShardError::EventBackpressured
                    &&& final(self).pending() == Some(command)
                },
                Some(error) => {
                    &&& outcome is Err
                    &&& outcome->Err_0 == ShardError::Engine(error)
                    &&& final(self).pending() == old(self).pending()
                },
            },
    {
        match self.engine.admit_command(events, command, check) {
            Ok(admitted) => Ok(admitted),
            Err(EventEngineError::Backpressured) => {
                self.pending = Some(command);
                Err(ShardError::EventBackpressured)
            },
            Err(error) => Err(ShardError::Engine(error)),
        }
    }

    /// Publishes the events of an admitted command from the gateway's answer.
    pub fn finish_command(
        &mut self,
        events: &mut BoundedQueue<EventBatch<BATCH>, EVENT_QUEUE>,
        admitted: AdmittedCommand,
        before: BookTop,
        after: BookTop,
        reports: &ReportBuffer<REPORTS>,
        result: Result<GatewayOutcome, GatewayError>,
    ) -> (outcome: Result<ShardStep, ShardError>)
        requires
            old(self).wf(),
            old(events).wf(),
        ensures
            *final(self) == *old(self),
            final(events).wf(),
            match command_events(
                CommandIdentity::spec_from_command(admitted.spec_command()),
                admitted.spec_command().spec_sequence(),
                before,
                after,
                reports@,
                result,
            ) {
                Err(error) => {
                    &&& outcome is Err
                    &&& outcome->Err_0 == ShardError::Engine(error)
                    &&& final(events)@ == old(events)@
                },
                Ok(published) => if old(events)@.len() >= EVENT_QUEUE {
                    &&& outcome is Err
                    &&& outcome->Err_0 == ShardError::Engine(EventEngineError::PublicationInvariant)
                    &&& final(events)@ == old(events)@
                } else {
                    &&& outcome is Ok
                    &&& outcome->Ok_0 == ShardStep::Processed(
                        admitted.spec_command().spec_sequence(),
                    )
                    &&& final(events)@.len() == old(events)@.len() + 1
                    &&& final(events)@.drop_last() == old(events)@
                    &&& final(events)@.last()@ == published
                },
            },
    {
        let sequence = admitted.command().sequence();
        match self.engine.apply(events, admitted, before, after, reports, result) {
            Ok(()) => Ok(ShardStep::Processed(sequence)),
            Err(error) => Err(ShardError::Engine(error)),
        }
    }

    #[must_use]
    pub fn route(&self) -> (route: InstrumentRoute)
        ensures
            route == self.spec_route(),
    {
        self.route
    }

    #[must_use]
    pub fn has_pending_command(&self) -> (pending: bool)
        ensures
            pending == (self.pending() is Some),
    {
        self.pending.is_some()
    }
}

} // verus!
