//! The route table: one instrument for each shard.

use vstd::prelude::*;

use crate::router::{InstrumentRoute, RouteTableError, ShardId};
use crate::types::InstrumentId;

verus! {

/// The route at `index` is the first whose shard is out of range or taken.
pub open spec fn shard_fault_at(routes: Seq<InstrumentRoute>, index: int) -> Option<
    RouteTableError,
> {
    let shard = routes[index].shard_id;
    if shard.0 >= routes.len() {
        Some(RouteTableError::InvalidShardId(shard))
    } else if exists|j: int| 0 <= j < index && (#[trigger] routes[j]).shard_id == shard {
        Some(RouteTableError::DuplicateShardId(shard))
    } else {
        None
    }
}

/// The first fault of a shard at `from` or behind it.
pub open spec fn shard_fault(routes: Seq<InstrumentRoute>, from: nat) -> Option<RouteTableError>
    decreases routes.len() - from,
{
    if from >= routes.len() {
        None
    } else if shard_fault_at(routes, from as int) is Some {
        shard_fault_at(routes, from as int)
    } else {
        shard_fault(routes, from + 1)
    }
}

/// Two routes name the instrument.
pub open spec fn repeated(routes: Seq<InstrumentRoute>, instrument: InstrumentId) -> bool {
    exists|i: int, j: int|
        0 <= i < routes.len() && 0 <= j < routes.len() && i != j && (
        #[trigger] routes[i]).instrument_id == instrument && (
        #[trigger] routes[j]).instrument_id == instrument
}

/// The least instrument that two routes name.
pub open spec fn first_repeated(routes: Seq<InstrumentRoute>, instrument: InstrumentId) -> bool {
    &&& repeated(routes, instrument)
    &&& forall|other: InstrumentId|
        #[trigger] repeated(routes, other) ==> instrument.0 <= other.0
}

/// Every shard is in range.
pub open spec fn shards_in_range(routes: Seq<InstrumentRoute>) -> bool {
    forall|i: int| 0 <= i < routes.len() ==> (#[trigger] routes[i]).shard_id.0 < routes.len()
}

/// No two routes name the same shard.
pub open spec fn shards_distinct(routes: Seq<InstrumentRoute>) -> bool {
    forall|i: int, j: int|
        0 <= i < routes.len() && 0 <= j < routes.len() && i != j ==> (
        #[trigger] routes[i]).shard_id != (#[trigger] routes[j]).shard_id
}

/// The instruments ascend.
pub open spec fn ascending(routes: Seq<InstrumentRoute>) -> bool {
    forall|i: int, j: int|
        0 <= i < j < routes.len() ==> (#[trigger] routes[i]).instrument_id.0 < (
        #[trigger] routes[j]).instrument_id.0
}

/// One of the routes leads from the instrument to the shard.
pub open spec fn leads(routes: Seq<InstrumentRoute>, instrument: InstrumentId, shard: ShardId) -> bool {
    routes.contains(InstrumentRoute { instrument_id: instrument, shard_id: shard })
}

/// The routes up to `count` are in order, and the instruments may repeat.
spec fn sorted_to(routes: Seq<InstrumentRoute>, count: int) -> bool {
    forall|i: int, j: int|
        0 <= i < j < count ==> (#[trigger] routes[i]).instrument_id.0 <= (
        #[trigger] routes[j]).instrument_id.0
}

/// The routes up to `last` are in order but for the one at `moving`, which comes
/// before those behind it.
spec fn sorted_around(routes: Seq<InstrumentRoute>, moving: int, last: int) -> bool {
    &&& forall|i: int, j: int|
        0 <= i < j <= last && i != moving && j != moving ==> (
        #[trigger] routes[i]).instrument_id.0 <= (#[trigger] routes[j]).instrument_id.0
    &&& forall|j: int|
        moving < j <= last ==> routes[moving].instrument_id.0 <= (
        #[trigger] routes[j]).instrument_id.0
}

/// The same routes in another order.
spec fn reordered(before: Seq<InstrumentRoute>, after: Seq<InstrumentRoute>) -> bool {
    &&& after.len() == before.len()
    &&& after.to_multiset() == before.to_multiset()
    &&& forall|instrument: InstrumentId| #[trigger]
        repeated(after, instrument) == repeated(before, instrument)
    &&& shards_in_range(before) ==> shards_in_range(after)
    &&& shards_distinct(before) ==> shards_distinct(after)
}

proof fn lemma_exchanged(before: Seq<InstrumentRoute>, after: Seq<InstrumentRoute>, at: int)
    requires
        0 < at < before.len(),
        after == before.update(at - 1, before[at]).update(at, before[at - 1]),
    ensures
        reordered(before, after),
{
    vstd::seq_lib::to_multiset_update(before, at - 1, before[at]);
    let middle = before.update(at - 1, before[at]);
    vstd::seq_lib::to_multiset_update(middle, at, before[at - 1]);
    assert(after.to_multiset() =~= before.to_multiset()) by {
        vstd::seq_lib::to_multiset_contains(before, before[at]);
        vstd::seq_lib::to_multiset_contains(before, before[at - 1]);
    }
    assert forall|instrument: InstrumentId| #[trigger]
        repeated(after, instrument) == repeated(before, instrument) by {
        lemma_exchange_keeps_repeats(before, after, at, instrument);
        assert(before =~= after.update(at - 1, after[at]).update(at, after[at - 1]));
        lemma_exchange_keeps_repeats(after, before, at, instrument);
    }
}

proof fn lemma_exchange_keeps_repeats(
    before: Seq<InstrumentRoute>,
    after: Seq<InstrumentRoute>,
    at: int,
    instrument: InstrumentId,
)
    requires
        0 < at < before.len(),
        after == before.update(at - 1, before[at]).update(at, before[at - 1]),
    ensures
        repeated(before, instrument) ==> repeated(after, instrument),
{
    if repeated(before, instrument) {
        let (i, j) = choose|i: int, j: int|
            0 <= i < before.len() && 0 <= j < before.len() && i != j && (
            #[trigger] before[i]).instrument_id == instrument && (
            #[trigger] before[j]).instrument_id == instrument;
        let moved = |k: int|
            if k == at {
                at - 1
            } else if k == at - 1 {
                at
            } else {
                k
            };
        assert(after[moved(i)] == before[i]);
        assert(after[moved(j)] == before[j]);
    }
}

proof fn lemma_reordered_again(
    first: Seq<InstrumentRoute>,
    second: Seq<InstrumentRoute>,
    third: Seq<InstrumentRoute>,
)
    requires
        reordered(first, second),
        reordered(second, third),
    ensures
        reordered(first, third),
{
    assert forall|instrument: InstrumentId| #[trigger]
        repeated(third, instrument) == repeated(first, instrument) by {
        assert(repeated(second, instrument) == repeated(first, instrument));
    }
}

proof fn lemma_no_shard_fault(routes: Seq<InstrumentRoute>, from: nat, index: int)
    requires
        shard_fault(routes, from) is None,
        from <= index < routes.len(),
    ensures
        shard_fault_at(routes, index) is None,
    decreases routes.len() - from,
{
    if from < index {
        lemma_no_shard_fault(routes, from + 1, index);
    }
}

proof fn lemma_shards(routes: Seq<InstrumentRoute>)
    requires
        shard_fault(routes, 0) is None,
    ensures
        shards_in_range(routes),
        shards_distinct(routes),
{
    assert forall|i: int| 0 <= i < routes.len() implies (#[trigger] routes[i]).shard_id.0
        < routes.len() by {
        lemma_no_shard_fault(routes, 0, i);
    }
    assert forall|i: int, j: int|
        0 <= i < routes.len() && 0 <= j < routes.len() && i != j implies (
    #[trigger] routes[i]).shard_id != (#[trigger] routes[j]).shard_id by {
        lemma_no_shard_fault(routes, 0, i);
        lemma_no_shard_fault(routes, 0, j);
    }
}

/// Distinct shards in range leave no shard out.
proof fn lemma_every_shard(routes: Seq<InstrumentRoute>, shard: int)
    requires
        shards_in_range(routes),
        shards_distinct(routes),
        0 <= shard < routes.len(),
    ensures
        exists|i: int| 0 <= i < routes.len() && (#[trigger] routes[i]).shard_id.0 == shard,
{
    let shards = Seq::new(routes.len(), |i: int| routes[i].shard_id.0 as int);
    assert(shards.no_duplicates()) by {
        assert forall|i: int, j: int|
            0 <= i < shards.len() && 0 <= j < shards.len() && i != j implies shards[i]
            != shards[j] by {
            assert(routes[i].shard_id != routes[j].shard_id);
        }
    }
    shards.unique_seq_to_set();
    let all = vstd::set_lib::set_int_range(0, routes.len() as int);
    vstd::set_lib::lemma_int_range(0, routes.len() as int);
    assert(shards.to_set().subset_of(all)) by {
        assert forall|shard: int| shards.to_set().contains(shard) implies all.contains(shard) by {
            let i = choose|i: int| 0 <= i < shards.len() && shards[i] == shard;
            assert(routes[i].shard_id.0 < routes.len());
        }
    }
    vstd::set_lib::lemma_subset_equality(shards.to_set(), all);
    assert(shards.to_set().contains(shard));
    let i = choose|i: int| 0 <= i < shards.len() && shards[i] == shard;
    assert(routes[i].shard_id.0 == shard);
}

/// Ascending instruments are at least as far apart as their places.
proof fn lemma_spread(routes: Seq<InstrumentRoute>, i: int, j: int)
    requires
        ascending(routes),
        0 <= i <= j < routes.len(),
    ensures
        routes[j].instrument_id.0 - routes[i].instrument_id.0 >= j - i,
    decreases j - i,
{
    if i < j {
        lemma_spread(routes, i, j - 1);
        assert(routes[j - 1].instrument_id.0 < routes[j].instrument_id.0);
    }
}

/// A route table with exactly one instrument for each shard. Routes are stored
/// in instrument order.
#[derive(Clone, Debug, PartialEq, Eq)]
pub struct RouteTable<const SHARDS: usize> {
    by_instrument: [InstrumentRoute; SHARDS],
    by_shard: [u16; SHARDS],
    dense: bool,
}

impl<const SHARDS: usize> View for RouteTable<SHARDS> {
    type V = Seq<InstrumentRoute>;

    /// The routes in instrument order.
    closed spec fn view(&self) -> Seq<InstrumentRoute> {
        self.by_instrument@
    }
}

impl<const SHARDS: usize> RouteTable<SHARDS> {
    pub closed spec fn wf(&self) -> bool {
        &&& 0 < SHARDS <= u16::MAX + 1
        &&& shards_in_range(self@)
        &&& shards_distinct(self@)
        &&& ascending(self@)
        &&& forall|shard: int|
            0 <= shard < SHARDS ==> (#[trigger] self.by_shard@[shard]) < SHARDS
                && self.by_instrument@[self.by_shard@[shard] as int].shard_id.0 == shard
        &&& self.dense == (self@[SHARDS - 1].instrument_id.0 - self@[0].instrument_id.0 == SHARDS
            - 1)
    }

    /// A route table has one route for each shard and for each instrument, in
    /// instrument order.
    pub proof fn law_routes(&self)
        requires
            self.wf(),
        ensures
            self@.len() == SHARDS,
            shards_in_range(self@),
            shards_distinct(self@),
            ascending(self@),
            forall|shard: ShardId|
                shard.0 < SHARDS ==> exists|instrument: InstrumentId| #[trigger]
                    leads(self@, instrument, shard),
    {
        assert forall|shard: ShardId| shard.0 < SHARDS implies exists|instrument: InstrumentId|
            #[trigger] leads(self@, instrument, shard) by {
            let at = self.by_shard@[shard.0 as int] as int;
            assert(self@[at] == (InstrumentRoute {
                instrument_id: self@[at].instrument_id,
                shard_id: shard,
            }));
            assert(leads(self@, self@[at].instrument_id, shard));
        }
    }

    /// The first route whose shard is out of range or taken.
    fn check_shards(routes: &[InstrumentRoute; SHARDS]) -> (outcome: Result<(), RouteTableError>)
        ensures
            match shard_fault(routes@, 0) {
                Some(error) => outcome is Err && outcome->Err_0 == error,
                None => outcome is Ok,
            },
    {
        let mut seen: [bool; SHARDS] = [false; SHARDS];
        let mut index: usize = 0;
        while index < SHARDS
            invariant
                index <= SHARDS,
                shard_fault(routes@, 0) == shard_fault(routes@, index as nat),
                forall|shard: int|
                    0 <= shard < SHARDS ==> ((#[trigger] seen@[shard]) == exists|j: int|
                        0 <= j < index && (#[trigger] routes@[j]).shard_id.0 == shard),
            decreases SHARDS - index,
        {
            let route = routes[index];
            let shard: usize = route.shard_id.0 as usize;
            if shard >= SHARDS {
                return Err(RouteTableError::InvalidShardId(route.shard_id));
            }
            if seen[shard] {
                assert(shard_fault_at(routes@, index as int) is Some);
                return Err(RouteTableError::DuplicateShardId(route.shard_id));
            }
            assert(shard_fault_at(routes@, index as int) is None);
            let ghost before = seen@;
            seen[shard] = true;
            proof {
                assert(seen@ == before.update(shard as int, true));
                assert forall|other: int| 0 <= other < SHARDS implies ((#[trigger] seen@[other])
                    == exists|j: int|
                    0 <= j < index + 1 && (#[trigger] routes@[j]).shard_id.0 == other) by {
                    assert(routes@[index as int].shard_id.0 == shard);
                    assert(before[other] == exists|j: int|
                        0 <= j < index && (#[trigger] routes@[j]).shard_id.0 == other);
                }
            }
            index = index + 1;
        }
        Ok(())
    }

    /// Moves the route at `last` to its place among those before it.
    fn place(routes: &mut [InstrumentRoute; SHARDS], last: usize)
        requires
            last < SHARDS,
            sorted_to(old(routes)@, last as int),
        ensures
            sorted_to(final(routes)@, last + 1),
            reordered(old(routes)@, final(routes)@),
    {
        let mut at: usize = last;
        while at > 0 && routes[at - 1].instrument_id.0 > routes[at].instrument_id.0
            invariant
                at <= last < SHARDS,
                sorted_around(routes@, at as int, last as int),
                reordered(old(routes)@, routes@),
            decreases at,
        {
            let ghost before = routes@;
            let lower = routes[at - 1];
            let upper = routes[at];
            routes[at - 1] = upper;
            routes[at] = lower;
            proof {
                lemma_exchanged(before, routes@, at as int);
                lemma_reordered_again(old(routes)@, before, routes@);
            }
            at = at - 1;
        }
    }

    /// Puts the routes in instrument order.
    fn sort(routes: &mut [InstrumentRoute; SHARDS])
        ensures
            sorted_to(final(routes)@, SHARDS as int),
            reordered(old(routes)@, final(routes)@),
    {
        let mut done: usize = 0;
        while done < SHARDS
            invariant
                done <= SHARDS,
                sorted_to(routes@, done as int),
                reordered(old(routes)@, routes@),
            decreases SHARDS - done,
        {
            let ghost before = routes@;
            Self::place(routes, done);
            proof {
                lemma_reordered_again(old(routes)@, before, routes@);
            }
            done = done + 1;
        }
    }

    /// The least instrument that two of the sorted routes name.
    fn check_instruments(routes: &[InstrumentRoute; SHARDS]) -> (outcome: Result<
        (),
        RouteTableError,
    >)
        requires
            SHARDS > 0,
            sorted_to(routes@, SHARDS as int),
        ensures
            match outcome {
                Ok(()) => ascending(routes@),
                Err(error) => error is DuplicateInstrument && first_repeated(
                    routes@,
                    error->DuplicateInstrument_0,
                ),
            },
    {
        let mut index: usize = 0;
        while index + 1 < SHARDS
            invariant
                index < SHARDS,
                sorted_to(routes@, SHARDS as int),
                forall|i: int, j: int|
                    0 <= i < j <= index ==> (#[trigger] routes@[i]).instrument_id.0 < (
                    #[trigger] routes@[j]).instrument_id.0,
            decreases SHARDS - index,
        {
            if routes[index].instrument_id == routes[index + 1].instrument_id {
                proof {
                    let instrument = routes@[index as int].instrument_id;
                    assert(repeated(routes@, instrument)) by {
                        assert(routes@[index + 1].instrument_id == instrument);
                    }
                    assert forall|other: InstrumentId| #[trigger]
                        repeated(routes@, other) implies instrument.0 <= other.0 by {
                        let (i, j) = choose|i: int, j: int|
                            0 <= i < routes@.len() && 0 <= j < routes@.len() && i != j && (
                            #[trigger] routes@[i]).instrument_id == other && (
                            #[trigger] routes@[j]).instrument_id == other;
                        assert(i > index || j > index);
                    }
                }
                return Err(RouteTableError::DuplicateInstrument(routes[index].instrument_id));
            }
            proof {
                assert forall|i: int, j: int| 0 <= i < j <= index + 1 implies (
                #[trigger] routes@[i]).instrument_id.0 < (#[trigger] routes@[j]).instrument_id.0 by {
                    if j == index + 1 {
                        assert(routes@[index as int].instrument_id.0
                            < routes@[index + 1].instrument_id.0);
                    }
                }
            }
            index = index + 1;
        }
        Ok(())
    }

    /// Where the route of each shard stands.
    fn index_shards(routes: &[InstrumentRoute; SHARDS]) -> (by_shard: [u16; SHARDS])
        requires
            SHARDS <= u16::MAX + 1,
            shards_in_range(routes@),
            shards_distinct(routes@),
        ensures
            forall|shard: int|
                0 <= shard < SHARDS ==> (#[trigger] by_shard@[shard]) < SHARDS
                    && routes@[by_shard@[shard] as int].shard_id.0 == shard,
    {
        let mut by_shard: [u16; SHARDS] = [0u16; SHARDS];
        let mut index: usize = 0;
        while index < SHARDS
            invariant
                index <= SHARDS <= u16::MAX + 1,
                shards_in_range(routes@),
                shards_distinct(routes@),
                forall|i: int|
                    0 <= i < index ==> by_shard@[(#[trigger] routes@[i]).shard_id.0 as int] == i,
            decreases SHARDS - index,
        {
            let ghost before = by_shard@;
            let shard: usize = routes[index].shard_id.0 as usize;
            assert(routes@[index as int].shard_id.0 < SHARDS);
            by_shard[shard] = index as u16;
            proof {
                assert forall|i: int| 0 <= i < index + 1 implies by_shard@[(
                #[trigger] routes@[i]).shard_id.0 as int] == i by {
                    if i < index {
                        assert(routes@[i].shard_id != routes@[index as int].shard_id);
                    }
                }
            }
            index = index + 1;
        }
        proof {
            assert forall|shard: int| 0 <= shard < SHARDS implies (#[trigger] by_shard@[shard])
                < SHARDS && routes@[by_shard@[shard] as int].shard_id.0 == shard by {
                lemma_every_shard(routes@, shard);
                let i = choose|i: int|
                    0 <= i < routes@.len() && (#[trigger] routes@[i]).shard_id.0 == shard;
                assert(by_shard@[routes@[i].shard_id.0 as int] == i);
            }
        }
        by_shard
    }

    /// Builds a route table with exactly one instrument for each shard. The order
    /// of the input does not affect lookup results. Shard IDs cover `0..SHARDS`
    /// exactly once.
    pub fn try_new(routes: [InstrumentRoute; SHARDS]) -> (outcome: Result<Self, RouteTableError>)
        ensures
            if SHARDS == 0 {
                outcome is Err && outcome->Err_0 == RouteTableError::NoShards
            } else if SHARDS > u16::MAX + 1 {
                outcome is Err && outcome->Err_0 == RouteTableError::TooManyShards
            } else if shard_fault(routes@, 0) is Some {
                outcome is Err && outcome->Err_0 == shard_fault(routes@, 0)->0
            } else if exists|instrument: InstrumentId| #[trigger] repeated(routes@, instrument) {
                &&& outcome is Err
                &&& outcome->Err_0 is DuplicateInstrument
                &&& first_repeated(routes@, outcome->Err_0->DuplicateInstrument_0)
            } else {
                &&& outcome is Ok
                &&& outcome->Ok_0.wf()
                &&& outcome->Ok_0@.to_multiset() == routes@.to_multiset()
            },
    {
        if SHARDS == 0 {
            return Err(RouteTableError::NoShards);
        }
        if SHARDS > 65536 {
            return Err(RouteTableError::TooManyShards);
        }
        if let Err(error) = Self::check_shards(&routes) {
            return Err(error);
        }
        let mut sorted = routes;
        Self::sort(&mut sorted);
        proof {
            lemma_shards(routes@);
        }
        if let Err(error) = Self::check_instruments(&sorted) {
            proof {
                let instrument = error->DuplicateInstrument_0;
                assert(repeated(sorted@, instrument));
                assert forall|other: InstrumentId| #[trigger]
                    repeated(routes@, other) implies instrument.0 <= other.0 by {
                    assert(repeated(sorted@, other));
                }
            }
            return Err(error);
        }
        proof {
            assert forall|instrument: InstrumentId| !(#[trigger] repeated(routes@, instrument)) by {
                assert(!repeated(sorted@, instrument));
            }
            assert(sorted@[0].instrument_id.0 <= sorted@[SHARDS - 1].instrument_id.0);
        }
        let by_shard = Self::index_shards(&sorted);
        let spread: u32 = sorted[SHARDS - 1].instrument_id.0 - sorted[0].instrument_id.0;
        let dense = spread == (SHARDS - 1) as u32;
        Ok(RouteTable { by_instrument: sorted, by_shard, dense })
    }

    /// The shard of an instrument, where the table has one.
    #[must_use]
    pub fn shard_for(&self, instrument_id: InstrumentId) -> (shard: Option<ShardId>)
        requires
            self.wf(),
        ensures
            match shard {
                Some(shard) => leads(self@, instrument_id, shard),
                None => forall|other: ShardId| !(#[trigger] leads(self@, instrument_id, other)),
            },
    {
        if self.dense {
            let first: u32 = self.by_instrument[0].instrument_id.0;
            proof {
                assert forall|i: int| 0 <= i < SHARDS implies (
                #[trigger] self@[i]).instrument_id.0 == first + i by {
                    lemma_spread(self@, 0, i);
                    lemma_spread(self@, i, SHARDS - 1);
                }
            }
            if instrument_id.0 < first {
                return None;
            }
            let offset: usize = (instrument_id.0 - first) as usize;
            if offset >= SHARDS {
                return None;
            }
            let route = self.by_instrument[offset];
            assert(self@[offset as int] == (InstrumentRoute {
                instrument_id,
                shard_id: route.shard_id,
            }));
            return Some(route.shard_id);
        }
        let mut low: usize = 0;
        let mut high: usize = SHARDS;
        while low < high
            invariant
                self.wf(),
                low <= high <= SHARDS,
                forall|i: int|
                    0 <= i < low ==> (#[trigger] self@[i]).instrument_id.0 < instrument_id.0,
                forall|i: int|
                    high <= i < SHARDS ==> (#[trigger] self@[i]).instrument_id.0 > instrument_id.0,
            decreases high - low,
        {
            let middle: usize = low + (high - low) / 2;
            let route = self.by_instrument[middle];
            if route.instrument_id == instrument_id {
                assert(self@[middle as int] == (InstrumentRoute {
                    instrument_id,
                    shard_id: route.shard_id,
                }));
                return Some(route.shard_id);
            }
            if route.instrument_id.0 < instrument_id.0 {
                low = middle + 1;
            } else {
                high = middle;
            }
        }
        None
    }

    /// The instrument of a shard, where the table has one.
    #[must_use]
    pub fn instrument_for(&self, shard_id: ShardId) -> (instrument: Option<InstrumentId>)
        requires
            self.wf(),
        ensures
            match instrument {
                Some(instrument) => leads(self@, instrument, shard_id),
                None => forall|other: InstrumentId| !(#[trigger] leads(self@, other, shard_id)),
            },
            instrument is Some <==> shard_id.0 < SHARDS,
    {
        let shard: usize = shard_id.0 as usize;
        if shard >= SHARDS {
            return None;
        }
        let at: usize = self.by_shard[shard] as usize;
        assert(self.by_shard@[shard as int] < SHARDS);
        let route = self.by_instrument[at];
        assert(self@[at as int] == (InstrumentRoute {
            instrument_id: route.instrument_id,
            shard_id,
        }));
        Some(route.instrument_id)
    }

    /// The routes in instrument order.
    #[must_use]
    pub fn routes(&self) -> (routes: &[InstrumentRoute; SHARDS])
        ensures
            routes@ == self@,
    {
        &self.by_instrument
    }
}

/// Lookup does not depend on the order of the input: the same routes give the
/// same table.
pub proof fn law_input_order_does_not_matter<const SHARDS: usize>(
    first: RouteTable<SHARDS>,
    second: RouteTable<SHARDS>,
)
    requires
        first.wf(),
        second.wf(),
        first@.to_multiset() == second@.to_multiset(),
    ensures
        first@ == second@,
{
    let before = |a: InstrumentRoute, b: InstrumentRoute|
        a.instrument_id.0 < b.instrument_id.0 || a.instrument_id == b.instrument_id
            && a.shard_id.0 <= b.shard_id.0;
    assert(vstd::relations::sorted_by(first@, before));
    assert(vstd::relations::sorted_by(second@, before));
    vstd::seq_lib::lemma_sorted_unique(first@, second@, before);
}

/// The two lookups undo each other.
pub proof fn law_lookups_are_inverse<const SHARDS: usize>(
    table: RouteTable<SHARDS>,
    instrument: InstrumentId,
    shard: ShardId,
    other_instrument: InstrumentId,
    other_shard: ShardId,
)
    requires
        table.wf(),
        leads(table@, instrument, shard),
    ensures
        leads(table@, instrument, other_shard) ==> other_shard == shard,
        leads(table@, other_instrument, shard) ==> other_instrument == instrument,
{
    table.law_routes();
}

} // verus!
