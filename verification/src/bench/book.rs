//! Cells of the order book: price shapes and match plans.

use vstd::prelude::*;

use crate::bench::cells::{
    extended, folded, least, lemma_extended_more, lemma_extended_none, lemma_extended_one, Cell,
};
use crate::bench::clock::{time_samples, warm_up, Workload};
use crate::bench::config::SuiteConfig;
use crate::bench::record::{
    params_of, push_latency_record, recorded, BenchRecord, BenchView, Extra, ExtraView,
};
use crate::bench::shapes::{
    asks_only, bench_cancel, bench_order, fan, lemma_absent, lemma_no_bids, lemma_rest_last,
    priced, resting, spec_bench_cancel, spec_bench_order, unused,
};
use crate::bench::taker::{Fate, Probe, Share, TakerWork};
use crate::book::model::{has_level, lemma_rank, removed_at, rested, LevelView, OrderView};
use crate::book::order_book::OrderBook;
use crate::book::order_index::index_fits;
use crate::types::{InstrumentId, PriceTicks, ReportBuffer, Side, TimeInForce};

verus! {

/// How often a cell runs untimed.
pub const WARMUP: u64 = 64;

/// The asks of a fixture: numbers from `first` up, all of one quantity.
pub open spec fn makers(first: u64, count: nat, quantity: u64) -> Seq<OrderView> {
    Seq::new(count, |i: int| resting((first + i) as u64, 1, quantity))
}

/// A book with one ask at each price from `price` up.
pub fn fan_fixture<const LEVELS: usize, const DEPTH: usize>(
    count: usize,
    price: i64,
    first: u64,
    quantity: u64,
) -> (book: OrderBook<LEVELS, DEPTH>)
    requires
        index_fits(LEVELS, DEPTH),
        DEPTH > 0,
        count <= LEVELS,
        0 < price,
        price + count < i64::MAX,
        quantity > 0,
        first + count <= u64::MAX,
    ensures
        book.wf(),
        book@ == asks_only(fan(price as int, makers(first, count as nat, quantity))),
{
    let mut book: OrderBook<LEVELS, DEPTH> = OrderBook::new(InstrumentId(1));
    let mut reports: ReportBuffer<1> = ReportBuffer::new();
    let mut done: usize = 0;
    proof {
        assert(makers(first, 0, quantity) =~= Seq::<OrderView>::empty());
        assert(fan(price as int, Seq::<OrderView>::empty()) =~= Seq::<LevelView>::empty());
    }
    while done < count
        invariant
            done <= count <= LEVELS,
            DEPTH > 0,
            0 < price,
            price + count < i64::MAX,
            quantity > 0,
            first + count <= u64::MAX,
            reports@.len() == 0,
            book.wf(),
            book@ == asks_only(fan(price as int, makers(first, done as nat, quantity))),
        decreases count - done,
    {
        let ghost orders = makers(first, done as nat, quantity);
        let order = bench_order(
            first + done as u64,
            1,
            price + done as i64,
            quantity,
            Side::Sell,
            TimeInForce::Gtc,
        );
        proof {
            lemma_rest_last(
                price as int,
                orders,
                order,
                1,
                LEVELS as nat,
                DEPTH as nat,
            );
            assert(orders.push(resting((first + done) as u64, 1, quantity)) =~= makers(
                first,
                (done + 1) as nat,
                quantity,
            ));
        }
        let outcome = book.submit(order, &mut reports);
        assert(outcome is Ok);
        reports.clear();
        done = done + 1;
    }
    book
}

/// What a cell leaves behind.
pub struct TakerResult {
    pub samples: Vec<u64>,
    pub checksum: u64,
    pub next_taker: u64,
    pub next_maker: u64,
}

/// The numbers of a fixture are apart from those of the takers.
pub open spec fn numbered(
    probe: Probe,
    first: u64,
    count: nat,
    first_taker: u64,
    first_maker: u64,
    rounds: nat,
) -> bool {
    &&& first + count <= first_taker || first >= first_taker + rounds
    &&& first + count <= first_maker
    &&& first_taker + rounds <= u64::MAX
    &&& first_maker + rounds * probe.restocks() <= u64::MAX
    &&& probe.restocks() > 0 ==> first_maker >= first_taker + rounds
}

/// Times a taker against a fan of `count` asks.
pub fn taker_cell<const LEVELS: usize, const DEPTH: usize, const REPORTS: usize>(
    probe: Probe,
    first: u64,
    count: usize,
    first_taker: u64,
    first_maker: u64,
    warm: u64,
    samples: usize,
) -> (result: TakerResult)
    requires
        index_fits(LEVELS, DEPTH),
        DEPTH > 0,
        0 < count <= LEVELS,
        0 < probe.maker_price,
        probe.maker_price + count < i64::MAX,
        probe.maker_quantity > 0,
        warm + samples <= u64::MAX,
        numbered(probe, first, count as nat, first_taker, first_maker, (warm + samples) as nat),
        probe.meets(
            makers(first, count as nat, probe.maker_quantity),
            0,
            (warm + samples) as nat,
            REPORTS as nat,
        ),
    ensures
        result.samples@.len() == samples,
        result.checksum == folded(0, probe.series(), (warm + samples) as nat),
        result.next_taker == first_taker + warm + samples,
        result.next_maker == first_maker + (warm + samples) * probe.restocks(),
{
    let book: OrderBook<LEVELS, DEPTH> = fan_fixture(
        count,
        probe.maker_price,
        first,
        probe.maker_quantity,
    );
    let ghost orders = makers(first, count as nat, probe.maker_quantity);
    let ghost rounds = (warm + samples) as nat;
    let mut work: TakerWork<LEVELS, DEPTH, REPORTS> = TakerWork::new(
        probe,
        book,
        first_taker,
        first_maker,
        0,
        Ghost(orders),
        Ghost(rounds),
    );
    warm_up(&mut work, warm);
    let taken = time_samples(&mut work, warm, samples);
    proof {
        work.lemma_done(rounds);
    }
    TakerResult {
        samples: taken,
        checksum: work.checksum(),
        next_taker: work.next_taker(),
        next_maker: work.next_maker(),
    }
}

/// A fan with one more level somewhere behind it.
pub open spec fn topped(price: int, orders: Seq<OrderView>, beyond: i64, order: OrderView) -> Seq<
    LevelView,
> {
    fan(price, orders).push(LevelView { price: PriceTicks(beyond), orders: seq![order] })
}

/// An ask behind the fan makes a level of its own, and its cancellation takes the
/// level away.
proof fn lemma_beyond(
    price: int,
    orders: Seq<OrderView>,
    id: u64,
    beyond: i64,
    reports: nat,
    levels: nat,
    depth: nat,
)
    requires
        priced(price, orders.len()),
        price + orders.len() <= beyond,
        unused(orders, id),
        orders.len() < levels,
    ensures
        ({
            let view = asks_only(fan(price, orders));
            let order = spec_bench_order(id, 1, beyond, 1, Side::Sell, TimeInForce::Gtc);
            let made = asks_only(topped(price, orders, beyond, resting(id, 1, 1)));
            &&& view.refusal(order, reports, levels, depth) is None
            &&& view.submitted(order) == made
            &&& made.unique_ids() ==> {
                &&& made.cancel_refusal(spec_bench_cancel(id, 1)) is None
                &&& made.without(crate::types::OrderId(id)) == view
            }
        }),
{
    let view = asks_only(fan(price, orders));
    let order = spec_bench_order(id, 1, beyond, 1, Side::Sell, TimeInForce::Gtc);
    let asks = view.asks;
    let added = resting(id, 1, 1);
    let made = asks_only(topped(price, orders, beyond, added));
    lemma_absent(price, orders, id);
    lemma_no_bids(order.price, 1);
    lemma_rank(asks, Side::Sell, order.price, asks.len() as int);
    assert(!has_level(asks, order.price));
    assert(rested(asks, Side::Sell, order.price, added) =~= made.asks);
    assert(view.submitted(order) =~= made);
    if made.unique_ids() {
        let number = crate::types::OrderId(id);
        let last = orders.len() as int;
        assert(made.rests_at(number, Side::Sell, last, 0));
        let (side, i, k) = made.place(number);
        assert(made.rests_at(number, side, i, k));
        assert(removed_at(made.asks, last, 0) =~= asks);
        assert(made.without(number) =~= view);
    }
}

/// Makes a level and takes it away.
pub struct LevelWork<const LEVELS: usize, const DEPTH: usize> {
    pub book: OrderBook<LEVELS, DEPTH>,
    pub reports: ReportBuffer<1>,
    /// How many levels were made.
    pub created: u64,
    pub count: Ghost<nat>,
}

/// The number of the first taker of a price shape.
pub const FIRST_TAKER: u64 = 1_000_000;

/// The number of the first order that makes a level.
pub const FIRST_CREATED: u64 = 3_000_000;

impl<const LEVELS: usize, const DEPTH: usize> Workload for LevelWork<LEVELS, DEPTH> {
    type Job = nat;

    open spec fn job(&self) -> nat {
        self.count@
    }

    open spec fn limit(&self) -> nat {
        1_000_000
    }

    /// The level that was made last is gone again.
    open spec fn ready(&self, done: nat) -> bool {
        &&& DEPTH > 0
        &&& self.created == done
        &&& self.count@ <= 8
        &&& self.count@ < LEVELS
        &&& self.book.wf()
        &&& self.reports@.len() == 0
        &&& self.book@ == asks_only(fan(200, makers(1, self.count@, 1)))
    }

    /// One more level stands behind those of the fixture.
    open spec fn ran(&self, done: nat) -> bool {
        &&& DEPTH > 0
        &&& self.created == done + 1
        &&& self.count@ <= 8
        &&& self.count@ < LEVELS
        &&& self.book.wf()
        &&& self.reports@.len() == 0
        &&& self.book@ == asks_only(
            topped(
                200,
                makers(1, self.count@, 1),
                500,
                resting((FIRST_CREATED + done) as u64, 1, 1),
            ),
        )
    }

    fn run(&mut self, index: u64) {
        let id: u64 = FIRST_CREATED + index;
        let order = bench_order(id, 1, 500, 1, Side::Sell, TimeInForce::Gtc);
        proof {
            lemma_beyond(
                200,
                makers(1, self.count@, 1),
                id,
                500,
                1,
                LEVELS as nat,
                DEPTH as nat,
            );
            lemma_no_bids(order.price, 1);
        }
        let outcome = self.book.submit(order, &mut self.reports);
        assert(outcome is Ok);
        if outcome.is_ok() {
            self.created = self.created + 1;
        }
        self.reports.clear();
    }

    fn restore(&mut self, index: u64) {
        let id: u64 = FIRST_CREATED + index;
        proof {
            self.book.law_sound();
            lemma_beyond(
                200,
                makers(1, self.count@, 1),
                id,
                500,
                1,
                LEVELS as nat,
                DEPTH as nat,
            );
        }
        let outcome = self.book.cancel(bench_cancel(id, 1));
        assert(outcome is Ok);
    }
}

/// Times how a level is made, behind one ask at each of `count` prices.
pub fn level_create_cell<const LEVELS: usize, const DEPTH: usize>(
    count: usize,
    warm: u64,
    samples: usize,
) -> (result: (Vec<u64>, LevelWork<LEVELS, DEPTH>))
    requires
        index_fits(LEVELS, DEPTH),
        DEPTH > 0,
        count <= 8,
        count < LEVELS,
        warm + samples <= 1_000_000,
    ensures
        result.0@.len() == samples,
        result.1.job() == count,
        result.1.ready((warm + samples) as nat),
{
    let mut work: LevelWork<LEVELS, DEPTH> = LevelWork {
        book: fan_fixture(count, 200, 1, 1),
        reports: ReportBuffer::new(),
        created: 0,
        count: Ghost(count as nat),
    };
    warm_up(&mut work, warm);
    let taken = time_samples(&mut work, warm, samples);
    (taken, work)
}

/// How often the operations of a price shape ran, timed or not.
#[derive(Clone, Copy, Debug, PartialEq, Eq, Structural)]
pub struct PriceRun {
    /// Takers that consumed the best ask.
    pub crossed: u64,
    /// Takers that took a part of the best ask.
    pub discovered: u64,
    /// Levels that were made and taken away.
    pub created: u64,
}

/// A record of a book cell with nothing measured.
pub open spec fn book_base(
    scenario: Seq<char>,
    params: Seq<(Seq<char>, ExtraView)>,
    checksum: u64,
) -> BenchView {
    BenchView::blank("component"@, "book"@, scenario, params, checksum)
}

/// Appends the record of a book cell.
pub fn push_book_record(
    out: &mut Vec<BenchRecord>,
    scenario: &'static str,
    params: Vec<(&'static str, Extra)>,
    checksum: u64,
    samples: Vec<u64>,
)
    requires
        samples@.len() > 0,
    ensures
        recorded(
            old(out)@,
            final(out)@,
            book_base(scenario@, params_of(params@), checksum),
            samples@,
            0,
        ),
{
    let record = BenchRecord::new("component", "book", scenario, params, checksum);
    push_latency_record(out, record, samples);
}

/// Appends the record of a price shape.
pub fn push_named_record(
    out: &mut Vec<BenchRecord>,
    scenario: &'static str,
    name: &'static str,
    samples: Vec<u64>,
)
    requires
        samples@.len() > 0,
    ensures
        recorded(
            old(out)@,
            final(out)@,
            book_base(scenario@, seq![("shape"@, ExtraView::Text(name@))], 0),
            samples@,
            0,
        ),
{
    let mut params: Vec<(&'static str, Extra)> = Vec::new();
    params.push(("shape", Extra::Text(name)));
    assert(params_of(params@) =~= seq![("shape"@, ExtraView::Text(name@))]);
    push_book_record(out, scenario, params, 0, samples);
}

/// A sample count as far as a cell takes it.
pub fn capped(samples: usize) -> (count: usize)
    ensures
        count == least(samples as nat, 2_000),
{
    if samples < 2_000 {
        samples
    } else {
        2_000
    }
}

/// What the cells of one price shape record.
pub open spec fn price_cells(config: SuiteConfig, name: Seq<char>) -> Seq<Cell> {
    let samples = least(config.price_samples as nat, 2_000);
    let params = seq![("shape"@, ExtraView::Text(name))];
    seq![
        Cell { base: book_base("submit_cross"@, params, 0), samples, brief_rate: 0 },
        Cell { base: book_base("discovery"@, params, 0), samples, brief_rate: 0 },
        Cell { base: book_base("level_create"@, params, 0), samples, brief_rate: 0 },
    ]
}

/// Times one price shape. Every cell keeps its book in a steady state: each timed
/// operation is balanced by an untimed one that restores the starting shape, so
/// all samples measure the intended operation at the stated occupancy.
pub fn price_scenario<const LEVELS: usize, const DEPTH: usize>(
    config: SuiteConfig,
    name: &'static str,
    active: usize,
    out: &mut Vec<BenchRecord>,
) -> (run: PriceRun)
    requires
        index_fits(LEVELS, DEPTH),
        DEPTH > 0,
        0 < active <= LEVELS,
        active < 1_000_000,
        least(active as nat, 8) < LEVELS,
        config.price_samples > 0,
    ensures
        extended(old(out)@, final(out)@, price_cells(config, name@)),
        ({
            let rounds = WARMUP as nat + least(config.price_samples as nat, 2_000);
            run.crossed == rounds && run.discovered == rounds && run.created == rounds
        }),
{
    let ghost before = out@;
    let samples: usize = capped(config.price_samples);
    // A one-unit buy crosses the best ask, and the consumed maker is replaced.
    let crossing = taker_cell::<LEVELS, DEPTH, 1>(
        Probe {
            fate: Fate::Whole,
            price: 1_000,
            quantity: 1,
            time_in_force: TimeInForce::Gtc,
            share: Share::Nothing,
            maker_price: 100,
            maker_quantity: 1,
        },
        1,
        active,
        FIRST_TAKER,
        2_000_000,
        WARMUP,
        samples,
    );
    push_named_record(out, "submit_cross", name, crossing.samples);
    let ghost first = out@;
    // Deep makers never deplete, so the taker measures best-price discovery.
    let discovery = taker_cell::<LEVELS, DEPTH, 1>(
        Probe {
            fate: Fate::Part,
            price: 100,
            quantity: 1,
            time_in_force: TimeInForce::Gtc,
            share: Share::Nothing,
            maker_price: 100,
            maker_quantity: 100_000,
        },
        1,
        active,
        FIRST_TAKER,
        2_000_000,
        WARMUP,
        samples,
    );
    push_named_record(out, "discovery", name, discovery.samples);
    let ghost second = out@;
    // A timed rest into a new price level, and a cancel that returns the slot.
    let count: usize = if active < 8 {
        active
    } else {
        8
    };
    let (created, work) = level_create_cell::<LEVELS, DEPTH>(count, WARMUP, samples);
    push_named_record(out, "level_create", name, created);
    proof {
        let cells = price_cells(config, name@);
        lemma_extended_none(before);
        lemma_extended_one(before, before, first, Seq::empty(), cells[0]);
        lemma_extended_one(before, first, second, Seq::empty().push(cells[0]), cells[1]);
        lemma_extended_one(
            before,
            second,
            out@,
            Seq::empty().push(cells[0]).push(cells[1]),
            cells[2],
        );
        assert(Seq::empty().push(cells[0]).push(cells[1]).push(cells[2]) =~= cells);
    }
    PriceRun {
        crossed: crossing.next_taker - FIRST_TAKER,
        discovered: discovery.next_taker - FIRST_TAKER,
        created: work.created,
    }
}

/// What the price shapes record.
pub open spec fn price_suite(config: SuiteConfig) -> Seq<Cell> {
    price_cells(config, "dense_64_32"@) + price_cells(config, "sparse_128_16"@) + price_cells(
        config,
        "dense_128_64"@,
    ) + price_cells(config, "dense_128_120"@)
}

/// Times every price shape.
pub fn price_benchmark(config: SuiteConfig, out: &mut Vec<BenchRecord>)
    requires
        config.price_samples > 0,
    ensures
        extended(old(out)@, final(out)@, price_suite(config)),
{
    let ghost before = out@;
    let _ = price_scenario::<64, 1>(config, "dense_64_32", 32, out);
    let ghost first = out@;
    let _ = price_scenario::<128, 1>(config, "sparse_128_16", 16, out);
    let ghost second = out@;
    let _ = price_scenario::<128, 1>(config, "dense_128_64", 64, out);
    let ghost third = out@;
    let _ = price_scenario::<128, 1>(config, "dense_128_120", 120, out);
    proof {
        let one = price_cells(config, "dense_64_32"@);
        let two = price_cells(config, "sparse_128_16"@);
        let three = price_cells(config, "dense_128_64"@);
        let four = price_cells(config, "dense_128_120"@);
        lemma_extended_more(before, first, second, one, two);
        lemma_extended_more(before, second, third, one + two, three);
        lemma_extended_more(before, third, out@, one + two + three, four);
    }
}

} // verus!
