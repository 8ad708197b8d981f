//! Runs that drive a gateway from outside: which orders come next, which of them
//! are timed, and what is recorded in the end.

use vstd::prelude::*;

use crate::bench::book::capped;
use crate::bench::cells::{least, Cell};
use crate::bench::config::SuiteConfig;
use crate::bench::record::{
    params_of, push_latency_record, recorded, BenchRecord, BenchView, Extra, ExtraView,
};
use crate::bench::shapes::{bench_order, spec_bench_order};
use crate::engine::builder::{fresh_risk, registrations};
use crate::queue::{is_power_of_two, BoundedQueue};
use crate::risk::engine::RiskEngine;
use crate::risk::{RegistrationError, RiskLimits};
use crate::types::{
    AccountId, CancelOrder, Command, InstrumentId, NewOrder, OrderId, PriceTicks, Quantity,
    SequenceNumber, Side, TimeInForce,
};

verus! {

/// The limits of both accounts of a gateway run.
pub open spec fn spec_gateway_limits(config: SuiteConfig) -> RiskLimits {
    RiskLimits {
        max_quantity: Quantity(10),
        max_notional: 10_000,
        max_abs_position: Quantity((config.gateway_iterations + 1) as u64),
        max_open_orders: 8,
        minimum_price: PriceTicks(1),
        maximum_price: PriceTicks(1_000),
    }
}

/// The risk engine of a gateway run.
pub fn gateway_risk(config: SuiteConfig) -> (risk: RiskEngine<2, 8>)
    requires
        config.gateway_iterations < u64::MAX,
    ensures
        risk.wf(),
        registrations(
            fresh_risk(8),
            seq![
                (AccountId(1), spec_gateway_limits(config)),
                (AccountId(2), spec_gateway_limits(config)),
            ],
            2,
        ) == Ok::<_, RegistrationError>(risk@),
{
    let limits = RiskLimits {
        max_quantity: Quantity(10),
        max_notional: 10_000,
        max_abs_position: Quantity(config.gateway_iterations + 1),
        max_open_orders: 8,
        minimum_price: PriceTicks(1),
        maximum_price: PriceTicks(1_000),
    };
    let mut risk: RiskEngine<2, 8> = RiskEngine::new();
    let ghost fresh = risk@;
    let ghost both = seq![(AccountId(1), limits), (AccountId(2), limits)];
    let first = risk.register_account(AccountId(1), limits);
    assert(first is Ok);
    let ghost one = risk@;
    assert(!one.has_account(AccountId(2))) by {
        if one.has_account(AccountId(2)) {
            let i = choose|i: int| one.is_account(AccountId(2), i);
            assert(one.accounts[i].id == AccountId(2));
        }
    }
    let second = risk.register_account(AccountId(2), limits);
    assert(second is Ok);
    proof {
        let shorter = both.drop_last();
        assert(shorter =~= seq![(AccountId(1), limits)]);
        assert(shorter.drop_last() =~= Seq::<(AccountId, RiskLimits)>::empty());
        assert(registrations(fresh, Seq::<(AccountId, RiskLimits)>::empty(), 2) == Ok::<
            _,
            RegistrationError,
        >(fresh));
        assert(registrations(fresh, shorter, 2) == Ok::<_, RegistrationError>(one));
    }
    risk
}

/// A sell that rests and a buy that fills it.
#[derive(Clone, Copy, Debug, PartialEq, Eq, Structural)]
pub struct OrderPair {
    pub sell: NewOrder,
    pub buy: NewOrder,
}

/// The pair whose first order has this number.
pub open spec fn spec_pair(first: u64) -> OrderPair {
    OrderPair {
        sell: spec_bench_order(first, 1, 100, 1, Side::Sell, TimeInForce::Gtc),
        buy: spec_bench_order((first + 1) as u64, 2, 100, 1, Side::Buy, TimeInForce::Gtc),
    }
}

/// The pair whose first order has this number.
pub fn pair(first: u64) -> (orders: OrderPair)
    requires
        first < u64::MAX,
    ensures
        orders == spec_pair(first),
{
    OrderPair {
        sell: bench_order(first, 1, 100, 1, Side::Sell, TimeInForce::Gtc),
        buy: bench_order(first + 1, 2, 100, 1, Side::Buy, TimeInForce::Gtc),
    }
}

/// What a gateway run does next.
#[derive(Clone, Copy, Debug, PartialEq, Eq, Structural)]
pub struct GatewayRound {
    pub orders: OrderPair,
    /// Both orders are timed.
    pub timed: bool,
}

/// Whether the orders of an iteration are timed. Sampling skips the first
/// iterations, so cold-start effects stay out of the reported distribution.
pub open spec fn in_window(config: SuiteConfig, iteration: int) -> bool {
    &&& iteration >= config.gateway_sample_after
    &&& iteration < config.gateway_sample_after + least(config.gateway_samples as nat, 2_000) / 2
}

/// A packet-to-report gateway run. The message sequence does not depend on what
/// is timed, so the digest stays comparable.
#[derive(Debug)]
pub struct GatewayRun {
    config: SuiteConfig,
    iteration: u64,
    samples: Vec<u64>,
}

pub struct GatewayRunView {
    pub config: SuiteConfig,
    pub iteration: int,
    pub samples: Seq<u64>,
}

impl View for GatewayRun {
    type V = GatewayRunView;

    closed spec fn view(&self) -> GatewayRunView {
        GatewayRunView {
            config: self.config,
            iteration: self.iteration as int,
            samples: self.samples@,
        }
    }
}

/// What a gateway run records.
pub open spec fn gateway_cell(config: SuiteConfig, digest: u64) -> Cell {
    Cell {
        base: BenchView::blank(
            "gateway"@,
            "gateway"@,
            "pair_rest_fill"@,
            seq![("messages"@, ExtraView::U64((config.gateway_iterations * 2) as u64))],
            digest,
        ),
        samples: least(config.gateway_samples as nat, 2_000),
        brief_rate: 0,
    }
}

impl GatewayRun {
    pub open spec fn wf(&self) -> bool {
        let config = self@.config;
        &&& 0 <= self@.iteration <= config.gateway_iterations
        &&& config.gateway_iterations * 2 + 4 <= u64::MAX
        &&& config.gateway_samples > 0
        &&& self@.samples.len() == least(config.gateway_samples as nat, 2_000)
    }

    pub fn new(config: SuiteConfig) -> (run: Self)
        requires
            config.gateway_iterations * 2 + 4 <= u64::MAX,
            config.gateway_samples > 0,
        ensures
            run.wf(),
            run@.config == config,
            run@.iteration == 0,
            run@.samples == Seq::new(least(config.gateway_samples as nat, 2_000), |i: int| 0u64),
    {
        let count: usize = capped(config.gateway_samples);
        let mut samples: Vec<u64> = Vec::new();
        let mut index: usize = 0;
        while index < count
            invariant
                index <= count,
                samples@ == Seq::new(index as nat, |i: int| 0u64),
            decreases count - index,
        {
            samples.push(0);
            assert(samples@ =~= Seq::new((index + 1) as nat, |i: int| 0u64));
            index = index + 1;
        }
        GatewayRun { config, iteration: 0, samples }
    }

    /// The untimed pair that warms the gateway up.
    pub fn warm_up(&self) -> (orders: OrderPair)
        ensures
            orders == spec_pair(1),
    {
        pair(1)
    }

    /// What comes next, until every iteration is done.
    pub fn next(&self) -> (round: Option<GatewayRound>)
        requires
            self.wf(),
        ensures
            round == if self@.iteration < self@.config.gateway_iterations {
                Some(
                    GatewayRound {
                        orders: spec_pair((self@.iteration * 2 + 3) as u64),
                        timed: in_window(self@.config, self@.iteration),
                    },
                )
            } else {
                None
            },
    {
        if self.iteration >= self.config.gateway_iterations {
            return None;
        }
        let count: u64 = self.samples.len() as u64;
        let after: u64 = self.config.gateway_sample_after;
        let timed = self.iteration >= after && self.iteration - after < count / 2;
        Some(GatewayRound { orders: pair(self.iteration * 2 + 3), timed })
    }

    /// One more iteration is done, in this many nanoseconds for each order. What
    /// is not timed is not kept.
    pub fn done(&mut self, sell_ns: u64, buy_ns: u64)
        requires
            old(self).wf(),
            old(self)@.iteration < old(self)@.config.gateway_iterations,
        ensures
            final(self).wf(),
            final(self)@.config == old(self)@.config,
            final(self)@.iteration == old(self)@.iteration + 1,
            final(self)@.samples == if in_window(old(self)@.config, old(self)@.iteration) {
                let slot = 2 * (old(self)@.iteration - old(self)@.config.gateway_sample_after);
                old(self)@.samples.update(slot, sell_ns).update(slot + 1, buy_ns)
            } else {
                old(self)@.samples
            },
    {
        let count: u64 = self.samples.len() as u64;
        let after: u64 = self.config.gateway_sample_after;
        if self.iteration >= after && self.iteration - after < count / 2 {
            let slot: usize = (self.iteration - after) as usize * 2;
            self.samples.set(slot, sell_ns);
            self.samples.set(slot + 1, buy_ns);
        }
        self.iteration = self.iteration + 1;
    }

    /// Appends the record of the run, with the gateway's digest as its checksum.
    pub fn finish(self, digest: u64, out: &mut Vec<BenchRecord>)
        requires
            self.wf(),
        ensures
            recorded(
                old(out)@,
                final(out)@,
                gateway_cell(self@.config, digest).base,
                self@.samples,
                0,
            ),
    {
        let messages: u64 = self.config.gateway_iterations * 2;
        let mut params: Vec<(&'static str, Extra)> = Vec::new();
        params.push(("messages", Extra::U64(messages)));
        assert(params_of(params@) =~= gateway_cell(self@.config, digest).base.params);
        let record = BenchRecord::new("gateway", "gateway", "pair_rest_fill", params, digest);
        push_latency_record(out, record, self.samples);
    }
}

/// Pushes one value more than a queue holds. It returns the greatest occupancy
/// and how many values were refused.
pub fn queue_capacity_smoke() -> (result: (usize, usize))
    ensures
        result == (64usize, 1usize),
{
    assert(is_power_of_two(64)) by {
        assert(64usize & 63usize == 0) by (bit_vector);
    }
    let mut queue: BoundedQueue<u64, 64> = match BoundedQueue::try_new() {
        Ok(queue) => queue,
        Err(error) => vstd::pervasive::unreached(),
    };
    let mut occupancy: usize = 0;
    let mut maximum: usize = 0;
    let mut refused: usize = 0;
    let mut value: u64 = 0;
    while value < 65
        invariant
            value <= 65,
            queue.wf(),
            queue@.len() == occupancy,
            occupancy == if value < 64 {
                value as int
            } else {
                64
            },
            maximum == occupancy,
            refused == value - occupancy,
        decreases 65 - value,
    {
        match queue.try_push(value) {
            Ok(()) => {
                occupancy = occupancy + 1;
                if occupancy > maximum {
                    maximum = occupancy;
                }
            },
            Err(back) => {
                refused = refused + 1;
            },
        }
        value = value + 1;
    }
    while queue.len() > 0
        invariant
            queue.wf(),
        decreases queue@.len(),
    {
        let taken = queue.try_pop();
    }
    (maximum, refused)
}

/// The record of the queue smoke.
pub open spec fn smoke_record() -> BenchView {
    BenchView {
        samples: 65,
        ..BenchView::blank(
            "component"@,
            "queue"@,
            "capacity_smoke"@,
            seq![
                ("capacity"@, ExtraView::U64(64)),
                ("max_occupancy"@, ExtraView::U64(64)),
                ("backpressure_events"@, ExtraView::U64(1)),
            ],
            64,
        )
    }
}

/// Appends the record of the queue smoke.
pub fn push_smoke_record(out: &mut Vec<BenchRecord>)
    ensures
        final(out)@.len() == old(out)@.len() + 1,
        final(out)@.drop_last() == old(out)@,
        final(out)@.last()@ == smoke_record(),
{
    let ghost before = out@;
    let (maximum, refused) = queue_capacity_smoke();
    let mut params: Vec<(&'static str, Extra)> = Vec::new();
    params.push(("capacity", Extra::U64(64)));
    params.push(("max_occupancy", Extra::U64(maximum as u64)));
    params.push(("backpressure_events", Extra::U64(refused as u64)));
    assert(params_of(params@) =~= smoke_record().params);
    let mut record = BenchRecord::new(
        "component",
        "queue",
        "capacity_smoke",
        params,
        maximum as u64,
    );
    record.samples = 65;
    assert(record@ =~= smoke_record());
    out.push(record);
    assert(out@.drop_last() =~= before);
}

/// Untimed commands of an engine run.
pub const ENGINE_WARMUP: u64 = 128;

/// The limits of the account of an engine run.
pub open spec fn spec_engine_limits() -> RiskLimits {
    RiskLimits {
        max_quantity: Quantity(10),
        max_notional: 10_000,
        max_abs_position: Quantity(1_000),
        max_open_orders: 8,
        minimum_price: PriceTicks(1),
        maximum_price: PriceTicks(1_000),
    }
}

/// The limits of the account of an engine run.
pub fn engine_limits() -> (limits: RiskLimits)
    ensures
        limits == spec_engine_limits(),
{
    RiskLimits {
        max_quantity: Quantity(10),
        max_notional: 10_000,
        max_abs_position: Quantity(1_000),
        max_open_orders: 8,
        minimum_price: PriceTicks(1),
        maximum_price: PriceTicks(1_000),
    }
}

/// The command of a step: an order, then its cancellation.
pub open spec fn spec_engine_command(step: u64) -> Command {
    let sequence = (step + 1) as u64;
    if step % 2 == 0 {
        Command::NewOrder(
            NewOrder {
                order_id: OrderId(sequence),
                account_id: AccountId(1),
                instrument_id: InstrumentId(7),
                sequence: SequenceNumber(sequence),
                price: PriceTicks(100),
                quantity: Quantity(2),
                side: Side::Buy,
                time_in_force: TimeInForce::Gtc,
            },
        )
    } else {
        Command::CancelOrder(
            CancelOrder {
                order_id: OrderId((sequence - 1) as u64),
                account_id: AccountId(1),
                instrument_id: InstrumentId(7),
                sequence: SequenceNumber(sequence),
            },
        )
    }
}

/// The command of a step: an order, then its cancellation.
pub fn engine_command(step: u64) -> (command: Command)
    requires
        step < u64::MAX,
    ensures
        command == spec_engine_command(step),
{
    let sequence: u64 = step + 1;
    if step % 2 == 0 {
        Command::NewOrder(
            NewOrder {
                order_id: OrderId(sequence),
                account_id: AccountId(1),
                instrument_id: InstrumentId(7),
                sequence: SequenceNumber(sequence),
                price: PriceTicks(100),
                quantity: Quantity(2),
                side: Side::Buy,
                time_in_force: TimeInForce::Gtc,
            },
        )
    } else {
        Command::CancelOrder(
            CancelOrder {
                order_id: OrderId(sequence - 1),
                account_id: AccountId(1),
                instrument_id: InstrumentId(7),
                sequence: SequenceNumber(sequence),
            },
        )
    }
}

/// The sum of the timed sequences, modulo the machine word.
pub open spec fn sequence_sum(timed: nat) -> u64
    decreases timed,
{
    if timed == 0 {
        0
    } else {
        sequence_sum((timed - 1) as nat).wrapping_add((ENGINE_WARMUP + timed) as u64)
    }
}

/// A run of journaled commands.
#[derive(Debug)]
pub struct EngineRun {
    count: usize,
    step: u64,
    checksum: u64,
    samples: Vec<u64>,
}

pub struct EngineRunView {
    pub count: nat,
    pub step: nat,
    pub checksum: u64,
    pub samples: Seq<u64>,
}

impl View for EngineRun {
    type V = EngineRunView;

    closed spec fn view(&self) -> EngineRunView {
        EngineRunView {
            count: self.count as nat,
            step: self.step as nat,
            checksum: self.checksum,
            samples: self.samples@,
        }
    }
}

/// What an engine run records.
pub open spec fn engine_cell(path: Seq<char>, state_bytes: u64, samples: nat) -> Cell {
    Cell {
        base: BenchView::blank(
            "gateway"@,
            "engine"@,
            "journaled_command"@,
            seq![
                ("path"@, ExtraView::Text(path)),
                ("state_bytes"@, ExtraView::U64(state_bytes)),
            ],
            sequence_sum(samples),
        ),
        samples,
        brief_rate: 0,
    }
}

impl EngineRun {
    pub open spec fn wf(&self) -> bool {
        &&& 0 < self@.count
        &&& ENGINE_WARMUP + self@.count < u64::MAX
        &&& self@.step <= ENGINE_WARMUP + self@.count
        &&& self@.samples.len() == if self@.step <= ENGINE_WARMUP {
            0
        } else {
            self@.step - ENGINE_WARMUP
        }
        &&& self@.checksum == sequence_sum(self@.samples.len())
    }

    pub fn new(samples: usize) -> (run: Self)
        requires
            0 < samples,
            ENGINE_WARMUP + samples < u64::MAX,
        ensures
            run.wf(),
            run@.step == 0,
            run@.count == samples,
    {
        EngineRun { count: samples, step: 0, checksum: 0, samples: Vec::new() }
    }

    /// The next command, until every sample is taken.
    pub fn next(&self) -> (command: Option<Command>)
        requires
            self.wf(),
        ensures
            command == if self@.step < ENGINE_WARMUP + self@.count {
                Some(spec_engine_command(self@.step as u64))
            } else {
                None
            },
    {
        if self.step < ENGINE_WARMUP + self.count as u64 {
            Some(engine_command(self.step))
        } else {
            None
        }
    }

    /// One more command is done, in this many nanoseconds. The first ones warm up
    /// and are not kept.
    pub fn done(&mut self, elapsed_ns: u64)
        requires
            old(self).wf(),
            old(self)@.step < ENGINE_WARMUP + old(self)@.count,
        ensures
            final(self).wf(),
            final(self)@.count == old(self)@.count,
            final(self)@.step == old(self)@.step + 1,
            final(self)@.samples == if old(self)@.step >= ENGINE_WARMUP {
                old(self)@.samples.push(elapsed_ns)
            } else {
                old(self)@.samples
            },
    {
        if self.step >= ENGINE_WARMUP {
            self.samples.push(elapsed_ns);
            self.checksum = self.checksum.wrapping_add(self.step + 1);
        }
        self.step = self.step + 1;
    }

    /// Appends the record of the run.
    pub fn finish(self, path: &'static str, state_bytes: u64, out: &mut Vec<BenchRecord>)
        requires
            self.wf(),
            self@.step == ENGINE_WARMUP + self@.count,
        ensures
            recorded(
                old(out)@,
                final(out)@,
                engine_cell(path@, state_bytes, self@.count).base,
                self@.samples,
                0,
            ),
    {
        let mut params: Vec<(&'static str, Extra)> = Vec::new();
        params.push(("path", Extra::Text(path)));
        params.push(("state_bytes", Extra::U64(state_bytes)));
        assert(params_of(params@) =~= engine_cell(path@, state_bytes, self@.count).base.params);
        let record = BenchRecord::new(
            "gateway",
            "engine",
            "journaled_command",
            params,
            self.checksum,
        );
        push_latency_record(out, record, self.samples);
    }
}

/// A finished engine run over one way of putting the engine together: the bytes
/// of its state, and the digest of its last snapshot.
#[derive(Debug)]
pub struct EngineTrial {
    pub run: EngineRun,
    pub state_bytes: u64,
    pub digest: [u8; 32],
}

impl EngineTrial {
    /// Every command of the run is done.
    pub open spec fn finished(&self) -> bool {
        self.run.wf() && self.run@.step == ENGINE_WARMUP + self.run@.count
    }
}

/// Appends the records of an engine put together by hand and of one behind its
/// facade. Both must end in the same state.
pub fn engine_benchmarks(
    composition: EngineTrial,
    facade: EngineTrial,
    out: &mut Vec<BenchRecord>,
)
    requires
        composition.finished(),
        facade.finished(),
        composition.digest@ == facade.digest@,
    ensures
        final(out)@.len() == old(out)@.len() + 2,
        final(out)@.take(old(out)@.len() as int) == old(out)@,
        final(out)@[old(out)@.len() as int]@.reports(
            engine_cell("composition"@, composition.state_bytes, composition.run@.count).base,
            composition.run@.samples,
            0,
        ),
        final(out)@[old(out)@.len() as int + 1]@.reports(
            engine_cell("facade"@, facade.state_bytes, facade.run@.count).base,
            facade.run@.samples,
            0,
        ),
{
    let ghost before = out@;
    composition.run.finish("composition", composition.state_bytes, out);
    let ghost between = out@;
    facade.run.finish("facade", facade.state_bytes, out);
    assert(out@.drop_last() == between);
    assert(out@.take(before.len() as int) =~= before) by {
        assert(between.drop_last() == before);
    }
}

} // verus!
