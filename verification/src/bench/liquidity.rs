//! Cells of the best levels: inspection alone, and after each change.

use vstd::prelude::*;

use crate::bench::book::{book_base, push_book_record};
use crate::bench::cells::{
    extended, lemma_extended_none, lemma_extended_one, rotated, spec_rotated, summed, Cell,
};
use crate::bench::clock::{time_samples, warm_up, Workload};
use crate::bench::fifo::stack;
use crate::bench::record::{appended, params_of, BenchRecord, Extra, ExtraView};
use crate::bench::shapes::{
    bench_cancel, bench_order, resting, spec_bench_cancel, spec_bench_order, unused,
};
use crate::book::model::{
    fills, has_level, lemma_rank, lemma_total_push, removed_at, rested, swept, total, unfilled,
    BookView, FillView, LevelView, OrderView,
};
use crate::book::order_book::OrderBook;
use crate::book::order_index::index_fits;
use crate::book::TopLevel;
use crate::types::{InstrumentId, NewOrder, OrderId, PriceTicks, ReportBuffer, Side, TimeInForce};

verus! {

/// How often a cell runs untimed.
pub const TOP_WARMUP: u64 = 64;

/// The depth of the book that is changed.
pub const CHANGED_DEPTH: usize = 64;

/// The number of the first order that comes and goes.
pub const FIRST_CYCLED: u64 = 1_000;

/// The resting orders of one side: every second number from `first` up.
pub open spec fn alternate(first: u64, count: nat) -> Seq<OrderView> {
    Seq::new(count, |i: int| resting((first + 2 * i) as u64, 1, (i % 7 + 1) as u64))
}

/// Bids at 99 and asks at 100.
pub open spec fn pair(bids: Seq<OrderView>, asks: Seq<OrderView>) -> BookView {
    BookView { instrument: InstrumentId(1), bids: stack(99, bids), asks: stack(100, asks) }
}

pub open spec fn side_price(side: Side) -> i64 {
    match side {
        Side::Buy => 99,
        Side::Sell => 100,
    }
}

/// The order of a cell.
pub open spec fn spec_order(id: u64, side: Side, quantity: u64) -> NewOrder {
    spec_bench_order(id, 1, side_price(side), quantity, side, TimeInForce::Gtc)
}

/// The order of a cell.
pub fn order(id: u64, side: Side, quantity: u64) -> (order: NewOrder)
    ensures
        order == spec_order(id, side, quantity),
{
    let price: i64 = match side {
        Side::Buy => 99,
        Side::Sell => 100,
    };
    bench_order(id, 1, price, quantity, side, TimeInForce::Gtc)
}

/// The pair with one more order on a side.
pub open spec fn pair_with(
    bids: Seq<OrderView>,
    asks: Seq<OrderView>,
    side: Side,
    added: OrderView,
) -> BookView {
    match side {
        Side::Buy => pair(bids.push(added), asks),
        Side::Sell => pair(bids, asks.push(added)),
    }
}

/// An order joins its side and trades with nobody.
proof fn lemma_join(
    bids: Seq<OrderView>,
    asks: Seq<OrderView>,
    id: u64,
    side: Side,
    quantity: u64,
    depth: nat,
)
    requires
        quantity > 0,
        unused(bids, id),
        unused(asks, id),
        side == Side::Buy ==> bids.len() < depth,
        side == Side::Sell ==> asks.len() < depth,
    ensures
        ({
            let view = pair(bids, asks);
            let order = spec_order(id, side, quantity);
            &&& view.refusal(order, 1, 1, depth) is None
            &&& view.order_fills(order) == Seq::<FillView>::empty()
            &&& view.summary(order).resting_quantity.0 == quantity
            &&& view.submitted(order) == pair_with(bids, asks, side, resting(id, 1, quantity))
        }),
{
    let view = pair(bids, asks);
    let order = spec_order(id, side, quantity);
    let added = resting(id, 1, quantity);
    let own = view.side(side);
    let orders = match side {
        Side::Buy => bids,
        Side::Sell => asks,
    };
    if view.contains(OrderId(id)) {
        let (s, i, k) = view.place(OrderId(id));
        assert(view.rests_at(OrderId(id), s, i, k));
        match s {
            Side::Buy => {
                assert(bids[k].id.0 != id);
            },
            Side::Sell => {
                assert(asks[k].id.0 != id);
            },
        }
    }
    let other = view.side(side.opposing());
    assert(fills(other, side, order.price, quantity as nat) =~= Seq::<FillView>::empty());
    assert(unfilled(other, side, order.price, quantity as nat) == quantity);
    assert(swept(other, side, order.price, quantity as nat) == other);
    lemma_rank(own, side, order.price, 0);
    if orders.len() > 0 {
        assert(own[0].price == order.price);
        assert(has_level(own, order.price));
    } else {
        assert(!has_level(own, order.price));
        assert(orders.push(added) =~= seq![added]);
    }
    assert(rested(own, side, order.price, added) =~= stack(
        side_price(side),
        orders.push(added),
    ));
    assert(view.submitted(order) =~= pair_with(bids, asks, side, added));
}

/// The last ask goes, and the others stay.
proof fn lemma_leave(bids: Seq<OrderView>, asks: Seq<OrderView>, id: u64, quantity: u64)
    requires
        asks.len() > 0,
        pair(bids, asks.push(resting(id, 1, quantity))).unique_ids(),
    ensures
        ({
            let view = pair(bids, asks.push(resting(id, 1, quantity)));
            &&& view.cancel_refusal(spec_bench_cancel(id, 1)) is None
            &&& view.without(OrderId(id)) == pair(bids, asks)
            &&& view.order(OrderId(id)).quantity.0 == quantity
        }),
{
    let all = asks.push(resting(id, 1, quantity));
    let view = pair(bids, all);
    let last = asks.len() as int;
    assert(view.rests_at(OrderId(id), Side::Sell, 0, last));
    let (side, i, k) = view.place(OrderId(id));
    assert(view.rests_at(OrderId(id), side, i, k));
    assert(all.remove(last) =~= asks);
    assert(removed_at(view.asks, 0, last) =~= stack(100, asks));
    assert(view.without(OrderId(id)) =~= pair(bids, asks));
}

/// A book with `depth` orders on each side.
pub fn fixture<const CAPACITY: usize>(depth: usize) -> (book: OrderBook<1, CAPACITY>)
    requires
        index_fits(1, CAPACITY),
        0 < CAPACITY,
        depth <= CAPACITY,
        depth < 1_000_000,
    ensures
        book.wf(),
        book@ == pair(alternate(1, depth as nat), alternate(2, depth as nat)),
{
    let mut book: OrderBook<1, CAPACITY> = OrderBook::new(InstrumentId(1));
    let mut reports: ReportBuffer<1> = ReportBuffer::new();
    let mut offset: usize = 0;
    assert(book@ =~= pair(alternate(1, 0), alternate(2, 0)));
    while offset < depth
        invariant
            offset <= depth <= CAPACITY,
            depth < 1_000_000,
            reports@.len() == 0,
            book.wf(),
            book@ == pair(alternate(1, offset as nat), alternate(2, offset as nat)),
        decreases depth - offset,
    {
        let quantity: u64 = offset as u64 % 7 + 1;
        let bid: u64 = offset as u64 * 2 + 1;
        let ask: u64 = offset as u64 * 2 + 2;
        let ghost bids = alternate(1, offset as nat);
        let ghost asks = alternate(2, offset as nat);
        proof {
            lemma_join(bids, asks, bid, Side::Buy, quantity, CAPACITY as nat);
            assert(bids.push(resting(bid, 1, quantity)) =~= alternate(1, (offset + 1) as nat));
        }
        let outcome = book.submit(order(bid, Side::Buy, quantity), &mut reports);
        assert(outcome is Ok);
        let ghost bids = alternate(1, (offset + 1) as nat);
        proof {
            lemma_join(bids, asks, ask, Side::Sell, quantity, CAPACITY as nat);
            assert(asks.push(resting(ask, 1, quantity)) =~= alternate(2, (offset + 1) as nat));
        }
        let outcome = book.submit(order(ask, Side::Sell, quantity), &mut reports);
        assert(outcome is Ok);
        offset = offset + 1;
    }
    book
}

/// Both best levels.
#[derive(Clone, Copy, Debug, PartialEq, Eq, Structural)]
pub struct TopPair {
    pub bid: TopLevel,
    pub ask: TopLevel,
}

/// The best levels of a pair.
pub open spec fn tops(bids: Seq<OrderView>, asks: Seq<OrderView>) -> TopPair {
    TopPair {
        bid: TopLevel {
            price: PriceTicks(99),
            aggregate_quantity: total(bids) as u128,
            order_count: bids.len() as usize,
        },
        ask: TopLevel {
            price: PriceTicks(100),
            aggregate_quantity: total(asks) as u128,
            order_count: asks.len() as usize,
        },
    }
}

/// The best level of a side.
pub open spec fn best(levels: Seq<LevelView>) -> TopLevel {
    TopLevel {
        price: levels[0].price,
        aggregate_quantity: total(levels[0].orders) as u128,
        order_count: levels[0].orders.len() as usize,
    }
}

/// Reads both best levels.
pub fn inspect<const CAPACITY: usize>(book: &OrderBook<1, CAPACITY>) -> (top: TopPair)
    requires
        book.wf(),
        book@.bids.len() > 0,
        book@.asks.len() > 0,
    ensures
        top == (TopPair { bid: best(book@.bids), ask: best(book@.asks) }),
{
    let bid = match book.top_level(Side::Buy) {
        Some(bid) => bid,
        None => vstd::pervasive::unreached(),
    };
    let ask = match book.top_level(Side::Sell) {
        Some(ask) => ask,
        None => vstd::pervasive::unreached(),
    };
    TopPair { bid, ask }
}

/// The checksum of both best levels.
pub open spec fn spec_checksum(top: TopPair) -> u64 {
    spec_rotated(top.bid.aggregate_quantity as u64, 7) ^ (top.ask.aggregate_quantity as u64)
        ^ spec_rotated(top.bid.order_count as u64, 17) ^ spec_rotated(
        top.ask.order_count as u64,
        29,
    )
}

/// The checksum of both best levels.
pub fn checksum(top: TopPair) -> (value: u64)
    requires
        top.bid.aggregate_quantity <= u64::MAX,
        top.ask.aggregate_quantity <= u64::MAX,
    ensures
        value == spec_checksum(top),
{
    rotated(top.bid.aggregate_quantity as u64, 7) ^ (top.ask.aggregate_quantity as u64) ^ rotated(
        top.bid.order_count as u64,
        17,
    ) ^ rotated(top.ask.order_count as u64, 29)
}

/// Orders of at most seven units each.
proof fn lemma_small_total(first: u64, count: nat)
    ensures
        total(alternate(first, count)) <= 7 * count,
    decreases count,
{
    if count > 0 {
        lemma_small_total(first, (count - 1) as nat);
        assert(alternate(first, count).drop_last() =~= alternate(first, (count - 1) as nat));
    }
}

/// Reads both best levels, again and again.
pub struct InspectWork<const DEPTH: usize> {
    book: OrderBook<1, DEPTH>,
    digest: u64,
}

/// The best levels of a fixture.
pub open spec fn fixture_tops(depth: nat) -> TopPair {
    tops(alternate(1, depth), alternate(2, depth))
}

impl<const DEPTH: usize> Workload for InspectWork<DEPTH> {
    type Job = ();

    closed spec fn job(&self) -> () {
        ()
    }

    closed spec fn limit(&self) -> nat {
        u64::MAX as nat
    }

    closed spec fn ready(&self, done: nat) -> bool {
        &&& 0 < DEPTH < 1_000_000
        &&& self.book.wf()
        &&& self.book@ == pair(alternate(1, DEPTH as nat), alternate(2, DEPTH as nat))
        &&& self.digest == summed(spec_checksum(fixture_tops(DEPTH as nat)), done)
    }

    closed spec fn ran(&self, done: nat) -> bool {
        self.ready(done + 1)
    }

    fn run(&mut self, index: u64) {
        let top = inspect(&self.book);
        proof {
            lemma_small_total(1, DEPTH as nat);
            lemma_small_total(2, DEPTH as nat);
        }
        self.digest = self.digest.wrapping_add(checksum(top));
    }

    fn restore(&mut self, index: u64) {
    }
}

/// What an inspection cell records.
pub open spec fn top_cell<const DEPTH: usize>(samples: usize) -> Cell {
    Cell {
        base: book_base(
            "top_level_pair"@,
            seq![
                ("depth"@, ExtraView::U64(DEPTH as u64)),
                (
                    "book_bytes"@,
                    ExtraView::U64(vstd::layout::size_of::<OrderBook<1, DEPTH>>() as u64),
                ),
            ],
            summed(spec_checksum(fixture_tops(DEPTH as nat)), samples as nat),
        ),
        samples: samples as nat,
        brief_rate: 0,
    }
}

/// Times the inspection of both best levels at one depth.
pub fn top_level_cell<const DEPTH: usize>(samples: usize, out: &mut Vec<BenchRecord>)
    requires
        index_fits(1, DEPTH),
        0 < DEPTH < 1_000_000,
        0 < samples,
    ensures
        appended(
            old(out)@,
            final(out)@,
            top_cell::<DEPTH>(samples),
        ),
{
    let mut warm: InspectWork<DEPTH> = InspectWork { book: fixture(DEPTH), digest: 0 };
    warm_up(&mut warm, TOP_WARMUP);
    let mut work: InspectWork<DEPTH> = InspectWork { book: warm.book, digest: 0 };
    let taken = time_samples(&mut work, 0, samples);
    let bytes: usize = core::mem::size_of::<OrderBook<1, DEPTH>>();
    let mut params: Vec<(&'static str, Extra)> = Vec::new();
    params.push(("depth", Extra::U64(DEPTH as u64)));
    params.push(("book_bytes", Extra::U64(bytes as u64)));
    assert(params_of(params@) =~= top_cell::<DEPTH>(samples).base.params);
    push_book_record(out, "top_level_pair", params, work.digest, taken);
}

/// The best levels with one more ask of three units.
pub open spec fn cycled_tops() -> TopPair {
    let at_rest = fixture_tops(64);
    TopPair {
        bid: at_rest.bid,
        ask: TopLevel {
            aggregate_quantity: (at_rest.ask.aggregate_quantity + 3) as u128,
            order_count: 65,
            ..at_rest.ask
        },
    }
}

/// What one cycle adds to the digest.
pub open spec fn cycle_checksum() -> u64 {
    spec_checksum(cycled_tops()) ^ spec_checksum(fixture_tops(64))
}

/// Rests an ask, reads both best levels, cancels it, and reads them again.
pub struct CycleWork {
    book: OrderBook<1, 65>,
    reports: ReportBuffer<1>,
    first: u64,
    digest: u64,
    limit: Ghost<nat>,
}

impl Workload for CycleWork {
    type Job = u64;

    closed spec fn job(&self) -> u64 {
        self.first
    }

    closed spec fn limit(&self) -> nat {
        self.limit@
    }

    closed spec fn ready(&self, done: nat) -> bool {
        &&& self.first >= FIRST_CYCLED
        &&& self.first + self.limit@ <= u64::MAX
        &&& self.book.wf()
        &&& self.reports@.len() == 0
        &&& self.book@ == pair(alternate(1, 64), alternate(2, 64))
        &&& self.digest == summed(cycle_checksum(), done)
    }

    closed spec fn ran(&self, done: nat) -> bool {
        self.ready(done + 1)
    }

    fn run(&mut self, index: u64) {
        let id: u64 = self.first + index;
        let ghost bids = alternate(1, 64);
        let ghost asks = alternate(2, 64);
        let ghost more = asks.push(resting(id, 1, 3));
        proof {
            assert(unused(bids, id));
            assert(unused(asks, id));
            lemma_join(bids, asks, id, Side::Sell, 3, 65);
            lemma_small_total(1, 64);
            lemma_small_total(2, 64);
            lemma_total_push(asks, resting(id, 1, 3));
        }
        let submitted = self.book.submit(order(id, Side::Sell, 3), &mut self.reports);
        assert(submitted is Ok);
        let after_submit = inspect(&self.book);
        proof {
            self.book.law_sound();
            lemma_leave(bids, asks, id, 3);
        }
        let cancelled = self.book.cancel(bench_cancel(id, 1));
        assert(cancelled is Ok);
        let after_cancel = inspect(&self.book);
        assert(after_submit == cycled_tops());
        self.digest = self.digest.wrapping_add(checksum(after_submit) ^ checksum(after_cancel));
    }

    fn restore(&mut self, index: u64) {
    }
}

/// What the cycle cell records.
pub open spec fn cycle_cell(samples: usize) -> Cell {
    Cell {
        base: book_base(
            "submit_top_cancel_top"@,
            seq![
                ("depth"@, ExtraView::U64(64)),
                ("orders_per_level"@, ExtraView::U64(65)),
                (
                    "book_bytes"@,
                    ExtraView::U64(vstd::layout::size_of::<OrderBook<1, 65>>() as u64),
                ),
            ],
            summed(cycle_checksum(), samples as nat),
        ),
        samples: samples as nat,
        brief_rate: 0,
    }
}

/// Times a whole cycle of submission, inspection, cancellation and inspection.
pub fn update_top_cell(samples: usize, out: &mut Vec<BenchRecord>)
    requires
        0 < samples,
        FIRST_CYCLED + TOP_WARMUP + samples <= u64::MAX,
    ensures
        appended(
            old(out)@,
            final(out)@,
            cycle_cell(samples),
        ),
{
    let mut warm = CycleWork {
        book: fixture(CHANGED_DEPTH),
        reports: ReportBuffer::new(),
        first: FIRST_CYCLED,
        digest: 0,
        limit: Ghost(TOP_WARMUP as nat),
    };
    warm_up(&mut warm, TOP_WARMUP);
    let mut work = CycleWork {
        book: warm.book,
        reports: ReportBuffer::new(),
        first: FIRST_CYCLED + TOP_WARMUP,
        digest: 0,
        limit: Ghost(samples as nat),
    };
    let taken = time_samples(&mut work, 0, samples);
    let bytes: usize = core::mem::size_of::<OrderBook<1, 65>>();
    let mut params: Vec<(&'static str, Extra)> = Vec::new();
    params.push(("depth", Extra::U64(64)));
    params.push(("orders_per_level", Extra::U64(65)));
    params.push(("book_bytes", Extra::U64(bytes as u64)));
    assert(params_of(params@) =~= cycle_cell(samples).base.params);
    push_book_record(out, "submit_top_cancel_top", params, work.digest, taken);
}

/// What the liquidity cells record.
pub open spec fn liquidity_suite(samples: usize) -> Seq<Cell> {
    if samples == 0 {
        Seq::empty()
    } else {
        seq![
            top_cell::<8>(samples),
            top_cell::<64>(samples),
            top_cell::<512>(samples),
            cycle_cell(samples),
        ]
    }
}

/// Times the inspection of the best levels, at three depths and after changes.
pub fn liquidity_benchmarks(samples: usize, out: &mut Vec<BenchRecord>)
    requires
        FIRST_CYCLED + TOP_WARMUP + samples <= u64::MAX,
    ensures
        extended(old(out)@, final(out)@, liquidity_suite(samples)),
{
    let ghost before = out@;
    if samples == 0 {
        proof {
            lemma_extended_none(before);
        }
        return;
    }
    top_level_cell::<8>(samples, out);
    let ghost first = out@;
    top_level_cell::<64>(samples, out);
    let ghost second = out@;
    top_level_cell::<512>(samples, out);
    let ghost third = out@;
    update_top_cell(samples, out);
    proof {
        let cells = liquidity_suite(samples);
        let none = Seq::<Cell>::empty();
        lemma_extended_none(before);
        lemma_extended_one(before, before, first, none, cells[0]);
        let one = none.push(cells[0]);
        lemma_extended_one(before, first, second, one, cells[1]);
        let two = one.push(cells[1]);
        lemma_extended_one(before, second, third, two, cells[2]);
        let three = two.push(cells[2]);
        lemma_extended_one(before, third, out@, three, cells[3]);
        assert(three.push(cells[3]) =~= cells);
    }
}

} // verus!
