//! Cells of one price level, and of a sweep of cancellations.

use vstd::prelude::*;

use crate::bench::book::{book_base, capped, makers, push_book_record, WARMUP};
use crate::bench::cells::{
    constant, extended, folded, least, lemma_extended_more, lemma_extended_none, lemma_extended_one,
    Cell,
};
use crate::bench::clock::{time_samples, warm_up, Workload};
use crate::bench::config::SuiteConfig;
use crate::bench::record::{appended, params_of, BenchRecord, Extra, ExtraView};
use crate::bench::shapes::{
    asks_only, bench_cancel, bench_order, lemma_no_bids, resting, spec_bench_cancel,
    spec_bench_order, unused,
};
use crate::book::model::{
    fills, front_left, front_trade, has_level, lemma_rank, removed_at, report_of, rested, swept,
    tradable, unfilled, BookView, FillView, LevelView, OrderView,
};
use crate::book::order_book::OrderBook;
use crate::book::order_index::index_fits;
use crate::types::{
    InstrumentId, NewOrder, OrderId, PriceTicks, RejectReason, ReportBuffer, Side, TimeInForce,
};

verus! {

/// All the orders at one price.
pub open spec fn stack(price: i64, orders: Seq<OrderView>) -> Seq<LevelView> {
    if orders.len() == 0 {
        Seq::empty()
    } else {
        seq![LevelView { price: PriceTicks(price), orders }]
    }
}

proof fn lemma_stack_absent(price: i64, orders: Seq<OrderView>, id: u64)
    requires
        unused(orders, id),
    ensures
        !asks_only(stack(price, orders)).contains(OrderId(id)),
{
    let view = asks_only(stack(price, orders));
    if view.contains(OrderId(id)) {
        let (side, i, k) = view.place(OrderId(id));
        assert(view.rests_at(OrderId(id), side, i, k));
        assert(orders[k].id.0 != id);
    }
}

/// An ask at the price of the stack goes behind the others, where there is room.
pub proof fn lemma_stack_rest(
    price: i64,
    orders: Seq<OrderView>,
    id: u64,
    quantity: u64,
    reports: nat,
    levels: nat,
    depth: nat,
)
    requires
        price > 0,
        quantity > 0,
        unused(orders, id),
        0 < levels,
        0 < depth,
        orders.len() <= depth,
    ensures
        ({
            let view = asks_only(stack(price, orders));
            let order = spec_bench_order(id, 1, price, quantity, Side::Sell, TimeInForce::Gtc);
            &&& view.order_fills(order) == Seq::<FillView>::empty()
            &&& orders.len() == depth ==> view.refusal(order, reports, levels, depth) == Some(
                RejectReason::PriceLevelOrderCapacity,
            )
            &&& orders.len() < depth ==> {
                &&& view.refusal(order, reports, levels, depth) is None
                &&& view.submitted(order) == asks_only(
                    stack(price, orders.push(resting(id, 1, quantity))),
                )
            }
        }),
{
    let view = asks_only(stack(price, orders));
    let order = spec_bench_order(id, 1, price, quantity, Side::Sell, TimeInForce::Gtc);
    let asks = view.asks;
    let added = resting(id, 1, quantity);
    lemma_stack_absent(price, orders, id);
    lemma_no_bids(order.price, quantity as nat);
    lemma_rank(asks, Side::Sell, order.price, 0);
    if orders.len() > 0 {
        assert(asks[0].price == order.price);
        assert(has_level(asks, order.price));
    } else {
        assert(!has_level(asks, order.price));
        assert(orders.push(added) =~= seq![added]);
    }
    assert(rested(asks, Side::Sell, order.price, added) =~= stack(price, orders.push(added)));
    if orders.len() < depth {
        assert(view.submitted(order) =~= asks_only(stack(price, orders.push(added))));
    }
}

/// An order of the stack can be cancelled, and the others stay.
pub proof fn lemma_stack_cancel(price: i64, orders: Seq<OrderView>, at: int)
    requires
        asks_only(stack(price, orders)).unique_ids(),
        0 <= at < orders.len(),
    ensures
        asks_only(stack(price, orders)).cancel_refusal(
            spec_bench_cancel(orders[at].id.0, orders[at].account_id.0),
        ) is None,
        asks_only(stack(price, orders)).without(orders[at].id) == asks_only(
            stack(price, orders.remove(at)),
        ),
{
    let view = asks_only(stack(price, orders));
    let id = orders[at].id;
    assert(view.rests_at(id, Side::Sell, 0, at));
    let (side, i, k) = view.place(id);
    assert(view.rests_at(id, side, i, k));
    lemma_stack_removed(price, orders, at);
    assert(view.without(id) =~= asks_only(stack(price, orders.remove(at))));
}

/// A stack without one of its orders.
proof fn lemma_stack_removed(price: i64, orders: Seq<OrderView>, at: int)
    requires
        0 <= at < orders.len(),
    ensures
        removed_at(stack(price, orders), 0, at) == stack(price, orders.remove(at)),
{
    assert(removed_at(stack(price, orders), 0, at) =~= stack(price, orders.remove(at)));
}

/// A buy of the first order's quantity trades with it alone, and takes it away.
pub proof fn lemma_stack_head(price: i64, orders: Seq<OrderView>, id: u64, reports: nat)
    requires
        price > 0,
        orders.len() > 0,
        orders[0].quantity.0 == 1,
        unused(orders, id),
        reports >= 1,
    ensures
        ({
            let view = asks_only(stack(price, orders));
            let order = spec_bench_order(id, 2, price, 1, Side::Buy, TimeInForce::Gtc);
            &&& forall|levels: nat, depth: nat| #[trigger]
                view.refusal(order, reports, levels, depth) is None
            &&& view.order_fills(order) == seq![
                FillView { maker: orders[0].id, price: PriceTicks(price), quantity: 1 },
            ]
            &&& view.summary(order).filled_quantity.0 == 1
            &&& view.submitted(order) == asks_only(stack(price, orders.remove(0)))
        }),
{
    let view = asks_only(stack(price, orders));
    let order = spec_bench_order(id, 2, price, 1, Side::Buy, TimeInForce::Gtc);
    let asks = view.asks;
    lemma_stack_absent(price, orders, id);
    assert(tradable(asks, Side::Buy, order.price));
    assert(front_trade(asks, 1) == 1);
    let left = front_left(asks, 1);
    assert(fills(left, Side::Buy, order.price, 0) =~= Seq::<FillView>::empty());
    assert(unfilled(left, Side::Buy, order.price, 0) == 0);
    assert(view.order_fills(order) =~= seq![
        FillView { maker: orders[0].id, price: PriceTicks(price), quantity: 1 },
    ]);
    lemma_stack_removed(price, orders, 0);
    assert(swept(left, Side::Buy, order.price, 0) == left);
    assert(view.submitted(order) =~= asks_only(stack(price, orders.remove(0))));
}

#[derive(Clone, Copy, Debug, PartialEq, Eq, Structural)]
pub enum FifoScenario {
    HeadCancel,
    MiddleCancel,
    TailCancel,
    HeadFill,
}

impl FifoScenario {
    pub open spec fn spec_name(self) -> Seq<char> {
        match self {
            FifoScenario::HeadCancel => "head_cancel"@,
            FifoScenario::MiddleCancel => "middle_cancel"@,
            FifoScenario::TailCancel => "tail_cancel"@,
            FifoScenario::HeadFill => "head_fill"@,
        }
    }

    #[must_use]
    pub fn name(self) -> (name: &'static str)
        ensures
            name@ == self.spec_name(),
    {
        match self {
            FifoScenario::HeadCancel => "head_cancel",
            FifoScenario::MiddleCancel => "middle_cancel",
            FifoScenario::TailCancel => "tail_cancel",
            FifoScenario::HeadFill => "head_fill",
        }
    }

    /// The order that the scenario is about, in a level of `depth`.
    pub open spec fn spec_target(self, depth: usize) -> u64 {
        match self {
            FifoScenario::HeadCancel | FifoScenario::HeadFill => 1,
            FifoScenario::MiddleCancel => ((depth + 1) / 2) as u64,
            FifoScenario::TailCancel => depth as u64,
        }
    }

    /// The order that the scenario is about, in a level of `depth`.
    pub fn target(self, depth: usize) -> (target: u64)
        requires
            depth < usize::MAX,
        ensures
            target == self.spec_target(depth),
    {
        match self {
            FifoScenario::HeadCancel | FifoScenario::HeadFill => 1,
            FifoScenario::MiddleCancel => ((depth + 1) / 2) as u64,
            FifoScenario::TailCancel => depth as u64,
        }
    }
}

/// A full level of one-unit asks.
pub fn fifo_fixture<const DEPTH: usize>() -> (book: OrderBook<1, DEPTH>)
    requires
        index_fits(1, DEPTH),
        0 < DEPTH < u32::MAX,
    ensures
        book.wf(),
        book@ == asks_only(stack(100, makers(1, DEPTH as nat, 1))),
{
    let mut book: OrderBook<1, DEPTH> = OrderBook::new(InstrumentId(1));
    let mut reports: ReportBuffer<1> = ReportBuffer::new();
    let mut done: usize = 0;
    while done < DEPTH
        invariant
            done <= DEPTH,
            0 < DEPTH < u32::MAX,
            reports@.len() == 0,
            book.wf(),
            book@ == asks_only(stack(100, makers(1, done as nat, 1))),
        decreases DEPTH - done,
    {
        let ghost orders = makers(1, done as nat, 1);
        let order = bench_order(done as u64 + 1, 1, 100, 1, Side::Sell, TimeInForce::Gtc);
        proof {
            lemma_stack_rest(100, orders, (done + 1) as u64, 1, 1, 1, DEPTH as nat);
            assert(orders.push(resting((done + 1) as u64, 1, 1)) =~= makers(
                1,
                (done + 1) as nat,
                1,
            ));
        }
        let outcome = book.submit(order, &mut reports);
        assert(outcome is Ok);
        reports.clear();
        done = done + 1;
    }
    book
}

/// The buy that fills the first order of a level of `depth`.
pub open spec fn fifo_taker(depth: usize) -> NewOrder {
    spec_bench_order((depth + 1) as u64, 2, 100, 1, Side::Buy, TimeInForce::Gtc)
}

/// The level once the order `target` is gone.
pub open spec fn fifo_left(depth: usize, target: u64) -> BookView {
    asks_only(stack(100, makers(1, depth as nat, 1).remove(target - 1)))
}

/// One operation on a full level: it cancels the order, or fills it with a buy and
/// reports that. It returns the number of the order, which is gone from the level.
pub fn fifo_op<const DEPTH: usize>(
    book: &mut OrderBook<1, DEPTH>,
    reports: &mut ReportBuffer<1>,
    scenario: FifoScenario,
    target: u64,
) -> (id: u64)
    requires
        old(book).wf(),
        old(reports)@.len() == 0,
        0 < DEPTH < u32::MAX,
        old(book)@ == asks_only(stack(100, makers(1, DEPTH as nat, 1))),
        target == scenario.spec_target(DEPTH),
    ensures
        final(book).wf(),
        final(book)@ == fifo_left(DEPTH, target),
        final(reports)@ == if scenario == FifoScenario::HeadFill {
            seq![
                report_of(
                    fifo_taker(DEPTH),
                    FillView { maker: OrderId(target), price: PriceTicks(100), quantity: 1 },
                ),
            ]
        } else {
            Seq::empty()
        },
        id == target,
{
    let ghost orders = makers(1, DEPTH as nat, 1);
    match scenario {
        FifoScenario::HeadCancel | FifoScenario::MiddleCancel | FifoScenario::TailCancel => {
            proof {
                book.law_sound();
                lemma_stack_cancel(100, orders, target - 1);
                assert(reports@ =~= Seq::empty());
            }
            match book.cancel(bench_cancel(target, 1)) {
                Ok(cancelled) => cancelled.order_id.0,
                Err(reason) => vstd::pervasive::unreached(),
            }
        },
        FifoScenario::HeadFill => {
            let taker: u64 = DEPTH as u64 + 1;
            let order = bench_order(taker, 2, 100, 1, Side::Buy, TimeInForce::Gtc);
            proof {
                lemma_stack_head(100, orders, taker, 1);
            }
            let summary = book.submit(order, reports);
            assert(summary is Ok);
            assert(reports@ =~= seq![
                report_of(
                    fifo_taker(DEPTH),
                    FillView { maker: OrderId(target), price: PriceTicks(100), quantity: 1 },
                ),
            ]);
            match reports.get(0) {
                Some(report) => report.maker_order_id.0,
                None => 0,
            }
        },
    }
}

/// One operation on a full level, again and again.
pub struct FifoWork<const DEPTH: usize> {
    scenario: FifoScenario,
    target: u64,
    book: OrderBook<1, DEPTH>,
    reports: ReportBuffer<1>,
    checksum: u64,
}

impl<const DEPTH: usize> FifoWork<DEPTH> {
    spec fn counted(self, done: nat) -> bool {
        &&& index_fits(1, DEPTH)
        &&& 0 < DEPTH < u32::MAX
        &&& self.target == self.scenario.spec_target(DEPTH)
        &&& self.checksum == folded(0, constant(self.target), done)
    }
}

impl<const DEPTH: usize> Workload for FifoWork<DEPTH> {
    type Job = FifoScenario;

    closed spec fn job(&self) -> FifoScenario {
        self.scenario
    }

    closed spec fn limit(&self) -> nat {
        u64::MAX as nat
    }

    closed spec fn ready(&self, done: nat) -> bool {
        &&& self.counted(done)
        &&& self.book.wf()
        &&& self.reports@.len() == 0
        &&& self.book@ == asks_only(stack(100, makers(1, DEPTH as nat, 1)))
    }

    closed spec fn ran(&self, done: nat) -> bool {
        &&& self.counted(done + 1)
        &&& self.book.wf()
        &&& self.book@ == fifo_left(DEPTH, self.target)
    }

    fn run(&mut self, index: u64) {
        let id: u64 = fifo_op(&mut self.book, &mut self.reports, self.scenario, self.target);
        self.checksum = self.checksum ^ id;
    }

    fn restore(&mut self, index: u64) {
        self.book = fifo_fixture();
        self.reports.clear();
    }
}

/// What a level cell records.
pub open spec fn fifo_cell<const DEPTH: usize>(config: SuiteConfig, scenario: FifoScenario) -> Cell {
    let samples = least(config.fifo_samples as nat, 2_000);
    Cell {
        base: book_base(
            scenario.spec_name(),
            seq![
                ("depth"@, ExtraView::U64(DEPTH as u64)),
                (
                    "book_bytes"@,
                    ExtraView::U64(vstd::layout::size_of::<OrderBook<1, DEPTH>>() as u64),
                ),
            ],
            folded(0, constant(scenario.spec_target(DEPTH)), WARMUP as nat + samples),
        ),
        samples,
        brief_rate: 0,
    }
}

/// Times one scenario at one depth. Book construction stays outside the timed
/// region.
pub fn run_fifo_cell<const DEPTH: usize>(
    config: SuiteConfig,
    scenario: FifoScenario,
    out: &mut Vec<BenchRecord>,
)
    requires
        index_fits(1, DEPTH),
        0 < DEPTH < u32::MAX,
        config.fifo_samples > 0,
    ensures
        appended(
            old(out)@,
            final(out)@,
            fifo_cell::<DEPTH>(config, scenario),
        ),
{
    let samples: usize = capped(config.fifo_samples);
    let mut work: FifoWork<DEPTH> = FifoWork {
        scenario,
        target: scenario.target(DEPTH),
        book: fifo_fixture(),
        reports: ReportBuffer::new(),
        checksum: 0,
    };
    warm_up(&mut work, WARMUP);
    let taken = time_samples(&mut work, WARMUP, samples);
    let bytes: usize = core::mem::size_of::<OrderBook<1, DEPTH>>();
    let mut params: Vec<(&'static str, Extra)> = Vec::new();
    params.push(("depth", Extra::U64(DEPTH as u64)));
    params.push(("book_bytes", Extra::U64(bytes as u64)));
    assert(params_of(params@) =~= fifo_cell::<DEPTH>(config, scenario).base.params);
    push_book_record(out, scenario.name(), params, work.checksum, taken);
}

/// What the level cells of one scenario record.
pub open spec fn fifo_cells(config: SuiteConfig, scenario: FifoScenario) -> Seq<Cell> {
    seq![
        fifo_cell::<1>(config, scenario),
        fifo_cell::<4>(config, scenario),
        fifo_cell::<16>(config, scenario),
        fifo_cell::<64>(config, scenario),
        fifo_cell::<512>(config, scenario),
    ]
}

fn fifo_scenario(config: SuiteConfig, scenario: FifoScenario, out: &mut Vec<BenchRecord>)
    requires
        config.fifo_samples > 0,
    ensures
        extended(old(out)@, final(out)@, fifo_cells(config, scenario)),
{
    let ghost before = out@;
    run_fifo_cell::<1>(config, scenario, out);
    let ghost first = out@;
    run_fifo_cell::<4>(config, scenario, out);
    let ghost second = out@;
    run_fifo_cell::<16>(config, scenario, out);
    let ghost third = out@;
    run_fifo_cell::<64>(config, scenario, out);
    let ghost fourth = out@;
    run_fifo_cell::<512>(config, scenario, out);
    proof {
        let cells = fifo_cells(config, scenario);
        let none = Seq::<Cell>::empty();
        lemma_extended_none(before);
        lemma_extended_one(before, before, first, none, cells[0]);
        let one = none.push(cells[0]);
        lemma_extended_one(before, first, second, one, cells[1]);
        let two = one.push(cells[1]);
        lemma_extended_one(before, second, third, two, cells[2]);
        let three = two.push(cells[2]);
        lemma_extended_one(before, third, fourth, three, cells[3]);
        let four = three.push(cells[3]);
        lemma_extended_one(before, fourth, out@, four, cells[4]);
        assert(four.push(cells[4]) =~= cells);
    }
}

/// What the level cells record.
pub open spec fn fifo_suite(config: SuiteConfig) -> Seq<Cell> {
    fifo_cells(config, FifoScenario::HeadCancel) + fifo_cells(config, FifoScenario::MiddleCancel)
        + fifo_cells(config, FifoScenario::TailCancel) + fifo_cells(config, FifoScenario::HeadFill)
}

/// Times every scenario at every depth.
pub fn fifo_benchmark(config: SuiteConfig, out: &mut Vec<BenchRecord>)
    requires
        config.fifo_samples > 0,
    ensures
        extended(old(out)@, final(out)@, fifo_suite(config)),
{
    let ghost before = out@;
    fifo_scenario(config, FifoScenario::HeadCancel, out);
    let ghost first = out@;
    fifo_scenario(config, FifoScenario::MiddleCancel, out);
    let ghost second = out@;
    fifo_scenario(config, FifoScenario::TailCancel, out);
    let ghost third = out@;
    fifo_scenario(config, FifoScenario::HeadFill, out);
    proof {
        let one = fifo_cells(config, FifoScenario::HeadCancel);
        let two = fifo_cells(config, FifoScenario::MiddleCancel);
        let three = fifo_cells(config, FifoScenario::TailCancel);
        let four = fifo_cells(config, FifoScenario::HeadFill);
        lemma_extended_more(before, first, second, one, two);
        lemma_extended_more(before, second, third, one + two, three);
        lemma_extended_more(before, third, out@, one + two + three, four);
    }
}

} // verus!
