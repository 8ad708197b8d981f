//! Cells of the match plan.

use vstd::prelude::*;

use crate::bench::book::{book_base, capped, makers, push_book_record, taker_cell, WARMUP};
use crate::bench::cells::{
    constant, extended, folded, least, lemma_extended_none, lemma_extended_one, Cell,
};
use crate::bench::clock::{time_samples, warm_up, Workload};
use crate::bench::config::SuiteConfig;
use crate::bench::fifo::{lemma_stack_rest, stack};
use crate::bench::record::{appended, params_of, recorded, BenchRecord, Extra, ExtraView};
use crate::bench::shapes::{asks_only, bench_order, resting, spec_bench_order};
use crate::bench::taker::{Fate, Probe, Share};
use crate::book::order_book::OrderBook;
use crate::types::{InstrumentId, NewOrder, RejectReason, ReportBuffer, Side, TimeInForce};

verus! {

/// The cells of the match plan.
#[derive(Clone, Copy, Debug, PartialEq, Eq, Structural)]
pub enum PlanCell {
    /// The taker rests without walking the plan.
    NonCrossing,
    /// One deep maker fills the taker.
    SingleFill,
    /// Eight makers on eight levels fill the taker.
    MultiFill,
    /// The taker would exceed the report capacity.
    ReportFull,
    /// The taker would rest in a full level.
    DeepRejection,
}

impl PlanCell {
    pub open spec fn spec_name(self) -> Seq<char> {
        match self {
            PlanCell::NonCrossing => "non_crossing"@,
            PlanCell::SingleFill => "single_fill"@,
            PlanCell::MultiFill => "multi_fill"@,
            PlanCell::ReportFull => "report_full"@,
            PlanCell::DeepRejection => "deep_rejection"@,
        }
    }

    #[must_use]
    pub fn name(self) -> (name: &'static str)
        ensures
            name@ == self.spec_name(),
    {
        match self {
            PlanCell::NonCrossing => "non_crossing",
            PlanCell::SingleFill => "single_fill",
            PlanCell::MultiFill => "multi_fill",
            PlanCell::ReportFull => "report_full",
            PlanCell::DeepRejection => "deep_rejection",
        }
    }

    pub open spec fn spec_shape(self) -> Seq<char> {
        match self {
            PlanCell::NonCrossing => "traversals=0 fills=0 reports=0"@,
            PlanCell::SingleFill => "traversals=1 fills=1 reports=1"@,
            PlanCell::MultiFill => "traversals=8 fills=8 reports=8"@,
            PlanCell::ReportFull => "traversals=9 fills=0 reports=0"@,
            PlanCell::DeepRejection => "traversals=1 fills=0 reports=0"@,
        }
    }

    #[must_use]
    pub fn shape(self) -> (shape: &'static str)
        ensures
            shape@ == self.spec_shape(),
    {
        match self {
            PlanCell::NonCrossing => "traversals=0 fills=0 reports=0",
            PlanCell::SingleFill => "traversals=1 fills=1 reports=1",
            PlanCell::MultiFill => "traversals=8 fills=8 reports=8",
            PlanCell::ReportFull => "traversals=9 fills=0 reports=0",
            PlanCell::DeepRejection => "traversals=1 fills=0 reports=0",
        }
    }

    /// What one taker fills.
    pub open spec fn filled(self) -> u64 {
        match self {
            PlanCell::SingleFill => 1,
            PlanCell::MultiFill => 8,
            _ => 0,
        }
    }

    /// What the cell records.
    pub open spec fn cell(self, config: SuiteConfig) -> Cell {
        let samples = least(config.plan_samples as nat, 2_000);
        Cell {
            base: book_base(
                self.spec_name(),
                seq![
                    ("levels"@, ExtraView::U64(128)),
                    ("orders_per_level"@, ExtraView::U64(8)),
                    ("plan"@, ExtraView::Text(self.spec_shape())),
                ],
                if self == PlanCell::ReportFull || self == PlanCell::DeepRejection {
                    0
                } else {
                    folded(0, constant(self.filled()), WARMUP as nat + samples)
                },
            ),
            samples,
            brief_rate: 0,
        }
    }
}

/// The order that finds no room in a full level, the one after `done` others.
pub open spec fn spec_late_order(done: nat) -> NewOrder {
    spec_bench_order((1_000_000 + done) as u64, 1, 100, 1, Side::Sell, TimeInForce::Gtc)
}

/// Sends an order that the book refuses. It returns the reason, and neither the
/// book nor the reports change.
fn reject_once(
    book: &mut OrderBook<128, 8>,
    reports: &mut ReportBuffer<8>,
    index: u64,
) -> (reason: RejectReason)
    requires
        old(book).wf(),
        1_000_000 + index <= u64::MAX,
        old(book)@.refusal(
            spec_late_order(index as nat),
            (8 - old(reports)@.len()) as nat,
            128,
            8,
        ) is Some,
    ensures
        old(book)@.refusal(
            spec_late_order(index as nat),
            (8 - old(reports)@.len()) as nat,
            128,
            8,
        ) == Some(reason),
        *final(book) == *old(book),
        final(reports)@ == old(reports)@,
{
    let order = bench_order(1_000_000 + index, 1, 100, 1, Side::Sell, TimeInForce::Gtc);
    match book.submit(order, reports) {
        Ok(summary) => vstd::pervasive::unreached(),
        Err(reason) => reason,
    }
}

/// Tries to rest in a full level, again and again.
pub struct FullLevelWork {
    pub book: OrderBook<128, 8>,
    pub reports: ReportBuffer<8>,
    /// Why the last order was refused, until the next one can be sent.
    pub rejected: Option<RejectReason>,
    /// How many orders were refused for want of room.
    pub refused: u64,
}

impl FullLevelWork {
    /// The level is full, and the book holds nothing else.
    pub open spec fn full(self) -> bool {
        &&& self.book.wf()
        &&& self.reports@.len() == 0
        &&& self.book@ == asks_only(stack(100, makers(1, 8, 1)))
    }
}

impl Workload for FullLevelWork {
    type Job = ();

    open spec fn job(&self) -> () {
        ()
    }

    open spec fn limit(&self) -> nat {
        1_000_000
    }

    open spec fn ready(&self, done: nat) -> bool {
        self.full() && self.rejected is None && self.refused == done
    }

    /// The order was refused for want of room, and the level is as full as before.
    open spec fn ran(&self, done: nat) -> bool {
        &&& self.full()
        &&& self.refused == done + 1
        &&& self.rejected == Some(RejectReason::PriceLevelOrderCapacity)
        &&& self.rejected == self.book@.refusal(spec_late_order(done), 8, 128, 8)
    }

    fn run(&mut self, index: u64) {
        proof {
            lemma_stack_rest(100, makers(1, 8, 1), (1_000_000 + index) as u64, 1, 8, 128, 8);
        }
        let reason = reject_once(&mut self.book, &mut self.reports, index);
        if reason == RejectReason::PriceLevelOrderCapacity {
            self.refused = self.refused + 1;
        }
        self.rejected = Some(reason);
    }

    fn restore(&mut self, index: u64) {
        self.rejected = None;
    }
}

/// A book with one full level.
fn full_level_fixture() -> (book: OrderBook<128, 8>)
    ensures
        book.wf(),
        book@ == asks_only(stack(100, makers(1, 8, 1))),
{
    let mut book: OrderBook<128, 8> = OrderBook::new(InstrumentId(1));
    let mut reports: ReportBuffer<8> = ReportBuffer::new();
    let mut done: u64 = 0;
    while done < 8
        invariant
            done <= 8,
            reports@.len() == 0,
            book.wf(),
            book@ == asks_only(stack(100, makers(1, done as nat, 1))),
        decreases 8 - done,
    {
        let ghost orders = makers(1, done as nat, 1);
        let order = bench_order(done + 1, 1, 100, 1, Side::Sell, TimeInForce::Gtc);
        proof {
            lemma_stack_rest(100, orders, (done + 1) as u64, 1, 8, 128, 8);
            assert(orders.push(resting((done + 1) as u64, 1, 1)) =~= makers(
                1,
                (done + 1) as nat,
                1,
            ));
        }
        let outcome = book.submit(order, &mut reports);
        assert(outcome is Ok);
        reports.clear();
        done = done + 1;
    }
    book
}

/// Times how an order is refused that would rest in a full level.
pub fn full_level_cell(warm: u64, samples: usize) -> (result: (Vec<u64>, FullLevelWork))
    requires
        warm + samples <= 1_000_000,
    ensures
        result.0@.len() == samples,
        result.1.ready((warm + samples) as nat),
{
    let mut work = FullLevelWork {
        book: full_level_fixture(),
        reports: ReportBuffer::new(),
        rejected: None,
        refused: 0,
    };
    warm_up(&mut work, warm);
    let taken = time_samples(&mut work, warm, samples);
    (taken, work)
}

/// Appends the record of a match-plan cell.
pub fn push_plan_record(
    out: &mut Vec<BenchRecord>,
    cell: PlanCell,
    checksum: u64,
    samples: Vec<u64>,
)
    requires
        samples@.len() > 0,
    ensures
        recorded(
            old(out)@,
            final(out)@,
            book_base(
                cell.spec_name(),
                seq![
                    ("levels"@, ExtraView::U64(128)),
                    ("orders_per_level"@, ExtraView::U64(8)),
                    ("plan"@, ExtraView::Text(cell.spec_shape())),
                ],
                checksum,
            ),
            samples@,
            0,
        ),
{
    let shape = cell.shape();
    let mut params: Vec<(&'static str, Extra)> = Vec::new();
    params.push(("levels", Extra::U64(128)));
    params.push(("orders_per_level", Extra::U64(8)));
    params.push(("plan", Extra::Text(shape)));
    assert(params_of(params@) =~= seq![
        ("levels"@, ExtraView::U64(128)),
        ("orders_per_level"@, ExtraView::U64(8)),
        ("plan"@, ExtraView::Text(cell.spec_shape())),
    ]);
    push_book_record(out, cell.name(), params, checksum, samples);
}

/// The taker of a cell that trades or tries to.
fn plan_probe(fate: Fate, price: i64, quantity: u64, share: Share, maker_quantity: u64) -> (probe:
    Probe)
    ensures
        probe == (Probe {
            fate,
            price,
            quantity,
            time_in_force: TimeInForce::Gtc,
            share,
            maker_price: 100,
            maker_quantity,
        }),
{
    Probe {
        fate,
        price,
        quantity,
        time_in_force: TimeInForce::Gtc,
        share,
        maker_price: 100,
        maker_quantity,
    }
}

/// The number of the first taker of a match-plan cell.
pub const FIRST_PLANNED: u64 = 1_000_000;

/// Times one cell of the match plan. It returns how many orders were sent, timed or
/// not, each to the same book.
pub fn plan_cell(config: SuiteConfig, cell: PlanCell, out: &mut Vec<BenchRecord>) -> (sent: u64)
    requires
        config.plan_samples > 0,
    ensures
        appended(old(out)@, final(out)@, cell.cell(config)),
        sent == WARMUP as nat + least(config.plan_samples as nat, 2_000),
{
    let samples: usize = capped(config.plan_samples);
    match cell {
        PlanCell::NonCrossing => {
            let probe = plan_probe(Fate::Bid, 99, 1, Share::Filled, 10_000);
            let result = taker_cell::<128, 8, 8>(
                probe,
                1,
                1,
                FIRST_PLANNED,
                2_000_000,
                WARMUP,
                samples,
            );
            push_plan_record(out, cell, result.checksum, result.samples);
            result.next_taker - FIRST_PLANNED
        },
        PlanCell::SingleFill => {
            let probe = plan_probe(Fate::Part, 100, 1, Share::Filled, 10_000_000);
            proof {
                let quantity = probe.quantity as nat;
                assert((WARMUP + samples) * quantity == WARMUP + samples) by (nonlinear_arith)
                    requires
                        quantity == 1,
                ;
            }
            let result = taker_cell::<128, 8, 8>(
                probe,
                1,
                1,
                FIRST_PLANNED,
                2_000_000,
                WARMUP,
                samples,
            );
            push_plan_record(out, cell, result.checksum, result.samples);
            result.next_taker - FIRST_PLANNED
        },
        PlanCell::MultiFill => {
            let probe = plan_probe(Fate::Sweep, 1_000, 8, Share::Filled, 1);
            proof {
                let each = probe.restocks();
                assert((WARMUP + samples) * each == (WARMUP + samples) * 8) by (nonlinear_arith)
                    requires
                        each == 8,
                ;
            }
            let result = taker_cell::<128, 8, 8>(
                probe,
                1_500_000,
                8,
                FIRST_PLANNED,
                1_500_008,
                WARMUP,
                samples,
            );
            push_plan_record(out, cell, result.checksum, result.samples);
            result.next_taker - FIRST_PLANNED
        },
        PlanCell::ReportFull => {
            let probe = plan_probe(Fate::Refused, 1_000, 9, Share::Nothing, 1);
            let result = taker_cell::<128, 8, 8>(
                probe,
                1,
                9,
                FIRST_PLANNED,
                2_000_000,
                WARMUP,
                samples,
            );
            push_plan_record(out, cell, 0, result.samples);
            result.next_taker - FIRST_PLANNED
        },
        PlanCell::DeepRejection => {
            let (taken, work) = full_level_cell(WARMUP, samples);
            push_plan_record(out, cell, 0, taken);
            work.refused
        },
    }
}

/// What the cells of the match plan record.
pub open spec fn plan_suite(config: SuiteConfig) -> Seq<Cell> {
    seq![
        PlanCell::NonCrossing.cell(config),
        PlanCell::SingleFill.cell(config),
        PlanCell::MultiFill.cell(config),
        PlanCell::ReportFull.cell(config),
        PlanCell::DeepRejection.cell(config),
    ]
}

/// Times the match plan: without a match, with one, with many, and refused for
/// want of reports or of room.
pub fn match_plan_benchmark(config: SuiteConfig, out: &mut Vec<BenchRecord>)
    requires
        config.plan_samples > 0,
    ensures
        extended(old(out)@, final(out)@, plan_suite(config)),
{
    let ghost before = out@;
    let _ = plan_cell(config, PlanCell::NonCrossing, out);
    let ghost first = out@;
    let _ = plan_cell(config, PlanCell::SingleFill, out);
    let ghost second = out@;
    let _ = plan_cell(config, PlanCell::MultiFill, out);
    let ghost third = out@;
    let _ = plan_cell(config, PlanCell::ReportFull, out);
    let ghost fourth = out@;
    let _ = plan_cell(config, PlanCell::DeepRejection, out);
    proof {
        let cells = plan_suite(config);
        let none = Seq::<Cell>::empty();
        lemma_extended_none(before);
        lemma_extended_one(before, before, first, none, cells[0]);
        let one = none.push(cells[0]);
        lemma_extended_one(before, first, second, one, cells[1]);
        let two = one.push(cells[1]);
        lemma_extended_one(before, second, third, two, cells[2]);
        let three = two.push(cells[2]);
        lemma_extended_one(before, third, fourth, three, cells[3]);
        let four = three.push(cells[3]);
        lemma_extended_one(before, fourth, out@, four, cells[4]);
        assert(four.push(cells[4]) =~= cells);
    }
}

} // verus!
