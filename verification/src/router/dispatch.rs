//! Publication of commands to their shards.

use vstd::prelude::*;

use crate::events::batch::EventBatch;
use crate::events::ParseError;
use crate::queue::BoundedQueue;
use crate::router::table::{law_lookups_are_inverse, leads, RouteTable};
use crate::router::{InstrumentRoute, RouterError, ShardId};
use crate::types::Command;

verus! {

/// The command queue and the event queue of every shard.
pub struct MultiInstrumentRouter<
    const SHARDS: usize,
    const BATCH: usize,
    const COMMAND_QUEUE: usize,
    const EVENT_QUEUE: usize,
> {
    routes: RouteTable<SHARDS>,
    commands: Vec<BoundedQueue<Command, COMMAND_QUEUE>>,
    events: Vec<BoundedQueue<EventBatch<BATCH>, EVENT_QUEUE>>,
}

impl<
    const SHARDS: usize,
    const BATCH: usize,
    const COMMAND_QUEUE: usize,
    const EVENT_QUEUE: usize,
> MultiInstrumentRouter<SHARDS, BATCH, COMMAND_QUEUE, EVENT_QUEUE> {
    pub closed spec fn table(&self) -> RouteTable<SHARDS> {
        self.routes
    }

    /// The queued commands of each shard.
    pub closed spec fn commands(&self) -> Seq<Seq<Command>> {
        Seq::new(self.commands@.len(), |i: int| self.commands@[i]@)
    }

    /// The queued event batches of each shard.
    pub closed spec fn events(&self) -> Seq<Seq<EventBatch<BATCH>>> {
        Seq::new(self.events@.len(), |i: int| self.events@[i]@)
    }

    pub closed spec fn wf(&self) -> bool {
        &&& self.routes.wf()
        &&& self.commands@.len() == SHARDS
        &&& self.events@.len() == SHARDS
        &&& forall|i: int| 0 <= i < SHARDS ==> (#[trigger] self.commands@[i]).wf()
        &&& forall|i: int| 0 <= i < SHARDS ==> (#[trigger] self.events@[i]).wf()
    }

    /// A router has a valid table, and a command queue and an event queue for every
    /// shard, none of them over its capacity.
    pub proof fn law_sound(&self)
        requires
            self.wf(),
        ensures
            self.table().wf(),
            self.commands().len() == SHARDS,
            self.events().len() == SHARDS,
            forall|i: int|
                0 <= i < SHARDS ==> (#[trigger] self.commands()[i]).len() <= COMMAND_QUEUE,
            forall|i: int| 0 <= i < SHARDS ==> (#[trigger] self.events()[i]).len() <= EVENT_QUEUE,
    {
        assert forall|i: int| 0 <= i < SHARDS implies (#[trigger] self.commands()[i]).len()
            <= COMMAND_QUEUE by {
            assert(self.commands@[i].wf());
        }
        assert forall|i: int| 0 <= i < SHARDS implies (#[trigger] self.events()[i]).len()
            <= EVENT_QUEUE by {
            assert(self.events@[i].wf());
        }
    }

    /// The queues are indexed by [`ShardId`].
    #[must_use]
    pub fn new(
        routes: RouteTable<SHARDS>,
        commands: Vec<BoundedQueue<Command, COMMAND_QUEUE>>,
        events: Vec<BoundedQueue<EventBatch<BATCH>, EVENT_QUEUE>>,
    ) -> (router: Self)
        requires
            routes.wf(),
            commands@.len() == SHARDS,
            events@.len() == SHARDS,
            forall|i: int| 0 <= i < SHARDS ==> (#[trigger] commands@[i]).wf(),
            forall|i: int| 0 <= i < SHARDS ==> (#[trigger] events@[i]).wf(),
        ensures
            router.wf(),
            router.table() == routes,
            router.commands() == Seq::new(commands@.len(), |i: int| commands@[i]@),
            router.events() == Seq::new(events@.len(), |i: int| events@[i]@),
    {
        MultiInstrumentRouter { routes, commands, events }
    }

    /// Publishes one command to its shard, given what the wire decoder made of
    /// its frame. A frame that does not parse is published nowhere.
    pub fn route_frame(&mut self, parsed: Result<Command, ParseError>) -> (outcome: Result<
        ShardId,
        RouterError,
    >)
        requires
            old(self).wf(),
        ensures
            final(self).wf(),
            final(self).table() == old(self).table(),
            final(self).events() == old(self).events(),
            match parsed {
                Err(error) => {
                    &&& outcome == Err::<ShardId, _>(RouterError::Parse(error))
                    &&& final(self).commands() == old(self).commands()
                },
                Ok(command) => routed(
                    old(self).table()@,
                    old(self).commands(),
                    COMMAND_QUEUE,
                    command,
                    final(self).commands(),
                    outcome,
                ),
            },
    {
        match parsed {
            Err(error) => Err(RouterError::Parse(error)),
            Ok(command) => self.route_command(command),
        }
    }

    /// Publishes one normalized command to its shard.
    pub fn route_command(&mut self, command: Command) -> (outcome: Result<ShardId, RouterError>)
        requires
            old(self).wf(),
        ensures
            final(self).wf(),
            final(self).table() == old(self).table(),
            final(self).events() == old(self).events(),
            routed(
                old(self).table()@,
                old(self).commands(),
                COMMAND_QUEUE,
                command,
                final(self).commands(),
                outcome,
            ),
    {
        let ghost before = *self;
        let instrument_id = command.instrument_id();
        proof {
            self.routes.law_routes();
        }
        let shard_id = match self.routes.shard_for(instrument_id) {
            Some(shard_id) => shard_id,
            None => {
                return Err(RouterError::UnknownInstrument(instrument_id));
            },
        };
        let shard: usize = shard_id.0 as usize;
        assert(shard < SHARDS) by {
            let i = choose|i: int|
                0 <= i < self.routes@.len() && #[trigger] self.routes@[i]
                    == (crate::router::InstrumentRoute { instrument_id, shard_id });
            assert(self.routes@[i].shard_id.0 < self.routes@.len());
        }
        match self.commands[shard].try_push(command) {
            Ok(()) => {
                proof {
                    assert(self.commands() =~= before.commands().update(
                        shard as int,
                        before.commands()[shard as int].push(command),
                    ));
                    assert(self.events() =~= before.events());
                }
                Ok(shard_id)
            },
            Err(refused) => {
                proof {
                    assert(self.commands() =~= before.commands());
                    assert(self.events() =~= before.events());
                }
                Err(RouterError::CommandBackpressured(shard_id))
            },
        }
    }

    /// Takes the next event batch of one shard, without merging shard order.
    pub fn try_event(&mut self, shard_id: ShardId) -> (outcome: Result<
        Option<EventBatch<BATCH>>,
        RouterError,
    >)
        requires
            old(self).wf(),
        ensures
            final(self).wf(),
            final(self).table() == old(self).table(),
            final(self).commands() == old(self).commands(),
            if shard_id.0 >= SHARDS {
                &&& outcome is Err
                &&& outcome->Err_0 == RouterError::UnknownShard(shard_id)
                &&& final(self).events() == old(self).events()
            } else {
                let shard = shard_id.0 as int;
                let queued = old(self).events()[shard];
                &&& outcome is Ok
                &&& outcome->Ok_0 is Some <==> queued.len() > 0
                &&& queued.len() > 0 ==> outcome->Ok_0->0 == queued[0]
                &&& final(self).events() == if queued.len() > 0 {
                    old(self).events().update(shard, queued.skip(1))
                } else {
                    old(self).events()
                }
            },
    {
        let ghost before = *self;
        let shard: usize = shard_id.0 as usize;
        if shard >= SHARDS {
            return Err(RouterError::UnknownShard(shard_id));
        }
        let batch = self.events[shard].try_pop();
        proof {
            assert(self.commands() =~= before.commands());
            if batch is Some {
                assert(self.events() =~= before.events().update(
                    shard as int,
                    before.events()[shard as int].skip(1),
                ));
            } else {
                assert(self.events() =~= before.events());
            }
        }
        Ok(batch)
    }

    #[must_use]
    pub fn routes(&self) -> (routes: &RouteTable<SHARDS>)
        ensures
            *routes == self.table(),
    {
        &self.routes
    }

    /// Both queues of one shard, for the shard that works on them.
    pub fn lane(&mut self, shard_id: ShardId) -> (lane: (
        &mut BoundedQueue<Command, COMMAND_QUEUE>,
        &mut BoundedQueue<EventBatch<BATCH>, EVENT_QUEUE>,
    ))
        requires
            old(self).wf(),
            shard_id.0 < SHARDS,
        ensures
            lane.0@ == old(self).commands()[shard_id.0 as int],
            lane.1@ == old(self).events()[shard_id.0 as int],
            lane.0.wf(),
            lane.1.wf(),
            final(lane.0).wf() && final(lane.1).wf() ==> final(self).wf(),
            final(self).table() == old(self).table(),
            final(self).commands() == old(self).commands().update(
                shard_id.0 as int,
                final(lane.0)@,
            ),
            final(self).events() == old(self).events().update(shard_id.0 as int, final(lane.1)@),
    {
        let shard: usize = shard_id.0 as usize;
        (&mut self.commands[shard], &mut self.events[shard])
    }
}

/// What becomes of a command: it is queued behind the others of its shard, or
/// nothing changes and the error says why.
pub open spec fn routed(
    routes: Seq<InstrumentRoute>,
    before: Seq<Seq<Command>>,
    capacity: usize,
    command: Command,
    after: Seq<Seq<Command>>,
    outcome: Result<ShardId, RouterError>,
) -> bool {
    let instrument = command.spec_instrument_id();
    match outcome {
        Ok(shard) => {
            &&& leads(routes, instrument, shard)
            &&& shard.0 < before.len()
            &&& before[shard.0 as int].len() < capacity
            &&& after == before.update(shard.0 as int, before[shard.0 as int].push(command))
        },
        Err(RouterError::UnknownInstrument(unknown)) => {
            &&& unknown == instrument
            &&& forall|shard: ShardId| !(#[trigger] leads(routes, instrument, shard))
            &&& after == before
        },
        Err(RouterError::CommandBackpressured(shard)) => {
            &&& leads(routes, instrument, shard)
            &&& before[shard.0 as int].len() >= capacity
            &&& after == before
        },
        Err(_) => false,
    }
}

/// A full shard blocks no other: whether a command is queued depends on the queue
/// of its own shard alone, and no other queue changes.
pub proof fn law_shards_are_independent<const SHARDS: usize>(
    table: RouteTable<SHARDS>,
    before: Seq<Seq<Command>>,
    capacity: usize,
    command: Command,
    after: Seq<Seq<Command>>,
    outcome: Result<ShardId, RouterError>,
    shard: ShardId,
    other: int,
)
    requires
        table.wf(),
        leads(table@, command.spec_instrument_id(), shard),
        before.len() == SHARDS,
        routed(table@, before, capacity, command, after, outcome),
        0 <= other < SHARDS,
    ensures
        outcome is Ok <==> before[shard.0 as int].len() < capacity,
        outcome is Ok ==> outcome->Ok_0 == shard && after[shard.0 as int]
            == before[shard.0 as int].push(command),
        outcome is Err ==> outcome->Err_0 == RouterError::CommandBackpressured(shard) && after
            == before,
        other != shard.0 ==> after[other] == before[other],
{
    let instrument = command.spec_instrument_id();
    match outcome {
        Ok(found) => {
            law_lookups_are_inverse(table, instrument, shard, instrument, found);
        },
        Err(RouterError::CommandBackpressured(found)) => {
            law_lookups_are_inverse(table, instrument, shard, instrument, found);
        },
        _ => {},
    }
}

} // verus!
