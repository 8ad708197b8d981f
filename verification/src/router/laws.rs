//! Which shard a command goes to, and which routes make a table.

use vstd::prelude::*;

use crate::events::laws::{law_commands_name_their_parts, named_by};
use crate::router::dispatch::{law_shards_are_independent, routed};
use crate::router::shard::next_command;
use crate::router::table::{
    first_repeated, leads, repeated, shard_fault, shard_fault_at, RouteTable,
};
use crate::router::{InstrumentRoute, RouteTableError, RouterError, ShardId};
use crate::types::{Command, InstrumentId};

verus! {

/// A command goes to the shard of its own instrument, behind the commands that are
/// queued there, unless that queue is full. Then, or where no route names the
/// instrument, it goes nowhere, and the error says which.
pub proof fn law_commands_go_to_their_instrument<const SHARDS: usize>(
    table: RouteTable<SHARDS>,
    before: Seq<Seq<Command>>,
    capacity: usize,
    command: Command,
    after: Seq<Seq<Command>>,
    outcome: Result<ShardId, RouterError>,
)
    requires
        table.wf(),
        before.len() == SHARDS,
        routed(table@, before, capacity, command, after, outcome),
    ensures
        ({
            let instrument = named_by(command).1;
            &&& forall|i: int|
                0 <= i < table@.len() && (#[trigger] table@[i]).instrument_id == instrument ==> {
                    let shard = table@[i].shard_id;
                    let queue = before[shard.0 as int];
                    &&& shard.0 < SHARDS
                    &&& queue.len() < capacity ==> {
                        &&& outcome == Ok::<_, RouterError>(shard)
                        &&& after == before.update(shard.0 as int, queue.push(command))
                    }
                    &&& queue.len() >= capacity ==> {
                        &&& outcome == Err::<ShardId, _>(RouterError::CommandBackpressured(shard))
                        &&& after == before
                    }
                }
            &&& (forall|i: int|
                0 <= i < table@.len() ==> (#[trigger] table@[i]).instrument_id != instrument) ==> {
                &&& outcome == Err::<ShardId, _>(RouterError::UnknownInstrument(instrument))
                &&& after == before
            }
        }),
{
    let instrument = named_by(command).1;
    law_commands_name_their_parts(command);
    table.law_routes();
    assert forall|i: int|
        0 <= i < table@.len() && (#[trigger] table@[i]).instrument_id == instrument implies {
        let shard = table@[i].shard_id;
        let queue = before[shard.0 as int];
        &&& shard.0 < SHARDS
        &&& queue.len() < capacity ==> {
            &&& outcome == Ok::<_, RouterError>(shard)
            &&& after == before.update(shard.0 as int, queue.push(command))
        }
        &&& queue.len() >= capacity ==> {
            &&& outcome == Err::<ShardId, _>(RouterError::CommandBackpressured(shard))
            &&& after == before
        }
    } by {
        let shard = table@[i].shard_id;
        assert(table@[i] == InstrumentRoute { instrument_id: instrument, shard_id: shard });
        assert(leads(table@, instrument, shard));
        law_shards_are_independent(table, before, capacity, command, after, outcome, shard, 0);
    }
    if forall|i: int| 0 <= i < table@.len() ==> (#[trigger] table@[i]).instrument_id != instrument {
        assert forall|shard: ShardId| !(#[trigger] leads(table@, instrument, shard)) by {}
    }
}

/// A command that was held back comes before every queued one, and queued ones come
/// oldest first.
pub proof fn law_held_back_commands_come_first(pending: Option<Command>, queued: Seq<Command>)
    ensures
        pending is Some ==> next_command(pending, queued) == pending,
        pending is None && queued.len() > 0 ==> next_command(pending, queued) == Some(queued[0]),
        next_command(pending, queued) is None <==> pending is None && queued.len() == 0,
{
}

/// The shards of routes are accepted exactly when each is one of those that there are
/// routes for and no two routes share one. The error tells of the first route that
/// breaks this, and which of both it breaks.
pub proof fn law_shard_faults(routes: Seq<InstrumentRoute>, from: nat)
    ensures
        ({
            let fault = shard_fault(routes, from);
            &&& fault is None <==> forall|i: int|
                from <= i < routes.len() ==> {
                    &&& (#[trigger] routes[i]).shard_id.0 < routes.len()
                    &&& forall|j: int|
                        0 <= j < i ==> (#[trigger] routes[j]).shard_id != routes[i].shard_id
                }
            &&& fault is Some ==> exists|i: int|
                {
                    &&& from <= i < routes.len()
                    &&& fault == shard_fault_at(routes, i)
                    &&& if (#[trigger] routes[i]).shard_id.0 >= routes.len() {
                        fault == Some(RouteTableError::InvalidShardId(routes[i].shard_id))
                    } else {
                        &&& fault == Some(RouteTableError::DuplicateShardId(routes[i].shard_id))
                        &&& exists|j: int|
                            0 <= j < i && (#[trigger] routes[j]).shard_id == routes[i].shard_id
                    }
                    &&& forall|k: int|
                        from <= k < i ==> {
                            &&& (#[trigger] routes[k]).shard_id.0 < routes.len()
                            &&& forall|j: int|
                                0 <= j < k ==> (#[trigger] routes[j]).shard_id
                                    != routes[k].shard_id
                        }
                }
        }),
    decreases routes.len() - from,
{
    if from < routes.len() {
        let here = routes[from as int];
        if shard_fault_at(routes, from as int) is Some {
            assert(routes[from as int] == here);
            if here.shard_id.0 < routes.len() {
                let j = choose|j: int|
                    0 <= j < from && (#[trigger] routes[j]).shard_id == here.shard_id;
                assert(routes[j].shard_id == here.shard_id);
            }
        } else {
            law_shard_faults(routes, from + 1);
        }
    }
}

/// The instrument that a refused table is told of is one that two routes name, and every
/// smaller instrument has one route at most.
pub proof fn law_repeated_instrument_is_the_least(
    routes: Seq<InstrumentRoute>,
    instrument: InstrumentId,
)
    requires
        first_repeated(routes, instrument),
    ensures
        exists|i: int, j: int|
            {
                &&& 0 <= i < routes.len()
                &&& 0 <= j < routes.len()
                &&& i != j
                &&& (#[trigger] routes[i]).instrument_id == instrument
                &&& (#[trigger] routes[j]).instrument_id == instrument
            },
        forall|i: int, j: int|
            0 <= i < routes.len() && 0 <= j < routes.len() && i != j && (
            #[trigger] routes[i]).instrument_id == (#[trigger] routes[j]).instrument_id
                ==> instrument.0 <= routes[i].instrument_id.0,
{
    assert forall|i: int, j: int|
        0 <= i < routes.len() && 0 <= j < routes.len() && i != j && (
        #[trigger] routes[i]).instrument_id == (#[trigger] routes[j]).instrument_id implies instrument.0
        <= routes[i].instrument_id.0 by {
        assert(repeated(routes, routes[i].instrument_id));
    }
}

} // verus!
