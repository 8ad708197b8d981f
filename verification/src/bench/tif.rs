//! Time-in-force cells: immediate and fill-or-kill submissions timed against
//! equivalent resting ones on one book. Every cell rests its makers up front,
//! warms up untimed, and restores the steady state with untimed work between
//! samples.

use vstd::prelude::*;

use crate::bench::book::{book_base, makers, push_book_record, taker_cell};
use crate::bench::cells::{
    extended, folded, lemma_extended_none, lemma_extended_one, Cell,
};
use crate::bench::record::{appended, params_of, BenchRecord, Extra, ExtraView};
use crate::bench::taker::{Fate, Probe, Share};
use crate::types::TimeInForce;

verus! {

/// Untimed iterations per cell before sampling starts.
pub const WARMUP_SAMPLES: u64 = 64;

/// Checksum contribution for cells whose submit rejects.
pub const REJECT_CHECKSUM: u64 = 0x0F0F_F00D;

/// Reject checksum so crossing-reject cells carry a non-trivial value.
pub const PO_REJECT_CHECKSUM: u64 = 0x0070_6f72_656a;

/// The cells of one maker shape each.
#[derive(Clone, Copy, Debug, PartialEq, Eq, Structural)]
pub enum TifCell {
    /// Below-market probes against one deep ask.
    IocEmpty,
    /// Partial fills against a three-unit ask restored between samples.
    IocPartial,
    /// Full fills from a deep ask that never depletes.
    IocFull,
    /// Rejection against a shallow ask.
    FokReject,
    /// Single-unit fills from a deep ask.
    FokSingle,
    /// Sweeps of an eight-level fan, re-rested each sample.
    FokMulti,
    /// The direct comparison for `IocFull`.
    GtcFull,
    /// Partial fills that rest two units.
    GtcPartialRests,
}

impl TifCell {
    pub open spec fn spec_name(self) -> Seq<char> {
        match self {
            TifCell::IocEmpty => "ioc_empty"@,
            TifCell::IocPartial => "ioc_partial"@,
            TifCell::IocFull => "ioc_full"@,
            TifCell::FokReject => "fok_reject"@,
            TifCell::FokSingle => "fok_single"@,
            TifCell::FokMulti => "fok_multi"@,
            TifCell::GtcFull => "gtc_full"@,
            TifCell::GtcPartialRests => "gtc_partial_rests"@,
        }
    }

    #[must_use]
    pub fn name(self) -> (name: &'static str)
        ensures
            name@ == self.spec_name(),
    {
        match self {
            TifCell::IocEmpty => "ioc_empty",
            TifCell::IocPartial => "ioc_partial",
            TifCell::IocFull => "ioc_full",
            TifCell::FokReject => "fok_reject",
            TifCell::FokSingle => "fok_single",
            TifCell::FokMulti => "fok_multi",
            TifCell::GtcFull => "gtc_full",
            TifCell::GtcPartialRests => "gtc_partial_rests",
        }
    }

    pub open spec fn spec_tif(self) -> Seq<char> {
        match self {
            TifCell::IocEmpty | TifCell::IocPartial | TifCell::IocFull => "ioc"@,
            TifCell::FokReject | TifCell::FokSingle | TifCell::FokMulti => "fok"@,
            TifCell::GtcFull | TifCell::GtcPartialRests => "gtc"@,
        }
    }

    #[must_use]
    pub fn tif(self) -> (name: &'static str)
        ensures
            name@ == self.spec_tif(),
    {
        match self {
            TifCell::IocEmpty | TifCell::IocPartial | TifCell::IocFull => "ioc",
            TifCell::FokReject | TifCell::FokSingle | TifCell::FokMulti => "fok",
            TifCell::GtcFull | TifCell::GtcPartialRests => "gtc",
        }
    }

    /// What the taker of the cell fills each time.
    pub open spec fn filled(self) -> u64 {
        match self {
            TifCell::IocPartial | TifCell::GtcPartialRests => 3,
            TifCell::IocFull | TifCell::GtcFull => 4,
            TifCell::FokSingle => 1,
            TifCell::FokMulti => 8,
            _ => 0,
        }
    }

    /// What the cell adds to its checksum each time.
    pub open spec fn contribution(self) -> u64 {
        if self == TifCell::FokReject {
            REJECT_CHECKSUM
        } else {
            self.filled()
        }
    }

    /// How many asks the cell starts with.
    pub open spec fn spec_makers(self) -> usize {
        if self == TifCell::FokMulti {
            8
        } else {
            1
        }
    }

    /// How many asks are put back each time.
    pub open spec fn restocks(self) -> nat {
        match self {
            TifCell::IocPartial | TifCell::GtcPartialRests => 1,
            TifCell::FokMulti => 8,
            _ => 0,
        }
    }

    /// What the cell records.
    pub open spec fn cell(self, samples: usize) -> Cell {
        Cell {
            base: book_base(
                self.spec_name(),
                seq![("tif"@, ExtraView::Text(self.spec_tif()))],
                folded(
                    0,
                    crate::bench::cells::constant(self.contribution()),
                    WARMUP_SAMPLES as nat + samples as nat,
                ),
            ),
            samples: samples as nat,
            brief_rate: 0,
        }
    }

    /// The taker of the cell, and the asks that it meets.
    fn probe(self) -> (probe: Probe)
        ensures
            probe.maker_price == 100,
            probe.maker_quantity > 0,
            probe.contribution() == self.contribution(),
            probe.restocks() == self.restocks(),
            forall|first: u64, limit: nat|
                0 < limit <= 2_000_000 ==> #[trigger] probe.meets(
                    makers(first, self.spec_makers() as nat, probe.maker_quantity),
                    0,
                    limit,
                    16,
                ),
    {
        let (fate, price, quantity, time_in_force, share, maker_quantity): (
            Fate,
            i64,
            u64,
            TimeInForce,
            Share,
            u64,
        ) = match self {
            TifCell::IocEmpty => (
                Fate::Miss,
                99,
                10,
                TimeInForce::Ioc,
                Share::Filled,
                10_000_000,
            ),
            TifCell::IocPartial => (Fate::Whole, 100, 5, TimeInForce::Ioc, Share::Filled, 3),
            TifCell::IocFull => (
                Fate::Part,
                100,
                4,
                TimeInForce::Ioc,
                Share::Filled,
                10_000_000,
            ),
            TifCell::FokReject => (
                Fate::Refused,
                100,
                5,
                TimeInForce::Fok,
                Share::Constant(REJECT_CHECKSUM),
                3,
            ),
            TifCell::FokSingle => (
                Fate::Part,
                100,
                1,
                TimeInForce::Fok,
                Share::Filled,
                10_000_000,
            ),
            TifCell::FokMulti => (Fate::Sweep, 1_000, 8, TimeInForce::Fok, Share::Filled, 1),
            TifCell::GtcFull => (
                Fate::Part,
                100,
                4,
                TimeInForce::Gtc,
                Share::Filled,
                10_000_000,
            ),
            TifCell::GtcPartialRests => (
                Fate::PartBid,
                100,
                5,
                TimeInForce::Gtc,
                Share::Filled,
                3,
            ),
        };
        let probe = Probe {
            fate,
            price,
            quantity,
            time_in_force,
            share,
            maker_price: 100,
            maker_quantity,
        };
        proof {
            assert forall|first: u64, limit: nat| 0 < limit <= 2_000_000 implies
                #[trigger] probe.meets(
                makers(first, self.spec_makers() as nat, probe.maker_quantity),
                0,
                limit,
                16,
            ) by {
                if probe.fate == Fate::Part {
                    assert(limit * probe.quantity <= 2_000_000 * 4) by (nonlinear_arith)
                        requires
                            limit <= 2_000_000,
                            probe.quantity <= 4,
                    ;
                }
            }
        }
        probe
    }
}

/// Draws the next monotonic number from a counter.
pub fn take_id(counter: &mut u64) -> (id: u64)
    requires
        *old(counter) < u64::MAX,
    ensures
        id == *old(counter),
        *final(counter) == *old(counter) + 1,
{
    let id: u64 = *counter;
    *counter = id + 1;
    id
}

/// The counters leave the cell its numbers: no ask that rests has the number of
/// a taker.
pub open spec fn counters_fit(samples: usize, takers: u64, makers: u64) -> bool {
    &&& samples <= 1_900_000
    &&& takers + WARMUP_SAMPLES + samples <= makers
    &&& makers + 8 * (WARMUP_SAMPLES + samples + 1) <= u64::MAX
}

/// Times one cell. Only the submit call is timed; fixture repair and
/// replenishment stay outside the clock, so each sample observes the intended
/// steady-state occupancy.
pub fn run_tif_cell(
    cell: TifCell,
    samples: usize,
    next_taker_id: &mut u64,
    replenish_id: &mut u64,
    out: &mut Vec<BenchRecord>,
)
    requires
        0 < samples,
        counters_fit(samples, *old(next_taker_id), *old(replenish_id)),
    ensures
        appended(old(out)@, final(out)@, cell.cell(samples)),
        *final(next_taker_id) == *old(next_taker_id) + WARMUP_SAMPLES + samples,
        *final(replenish_id) == *old(replenish_id) + cell.spec_makers() + (WARMUP_SAMPLES
            + samples) * cell.restocks(),
{
    let probe = cell.probe();
    let count: usize = match cell {
        TifCell::FokMulti => 8,
        _ => 1,
    };
    let first: u64 = *replenish_id;
    proof {
        let rounds = (WARMUP_SAMPLES + samples) as nat;
        let each = cell.restocks();
        assert(rounds * each <= rounds * 8) by (nonlinear_arith)
            requires
                each <= 8,
        ;
        assert(probe.meets(makers(first, cell.spec_makers() as nat, probe.maker_quantity), 0, rounds, 16));
    }
    let result = taker_cell::<128, 8, 16>(
        probe,
        first,
        count,
        *next_taker_id,
        first + count as u64,
        WARMUP_SAMPLES,
        samples,
    );
    *next_taker_id = result.next_taker;
    *replenish_id = result.next_maker;
    let mut params: Vec<(&'static str, Extra)> = Vec::new();
    params.push(("tif", Extra::Text(cell.tif())));
    assert(params_of(params@) =~= cell.cell(samples).base.params);
    push_book_record(out, cell.name(), params, result.checksum, result.samples);
}

/// The label of a post-only cell says that its orders cross.
pub open spec fn spec_labelled_cross(scenario: Seq<char>) -> bool {
    scenario == "post_only_cross_shallow"@ || scenario == "post_only_cross_deep"@
}

/// Whether the label of a post-only cell says that its orders cross.
pub fn labelled_cross(scenario: &str) -> (crosses: bool)
    ensures
        crosses == spec_labelled_cross(scenario@),
{
    let label = scenario.to_owned();
    label == "post_only_cross_shallow".to_owned() || label == "post_only_cross_deep".to_owned()
}

/// What a post-only cell records, where its orders cross and are refused, or rest
/// and are cancelled, against one ask or sixty-four.
pub open spec fn po_record(
    samples: usize,
    scenario: Seq<char>,
    crossing: bool,
    deep: bool,
) -> Cell {
    Cell {
        base: book_base(
            scenario,
            seq![
                ("tif"@, ExtraView::Text("post_only"@)),
                (
                    "levels"@,
                    ExtraView::U64(
                        if deep {
                            64
                        } else {
                            1
                        },
                    ),
                ),
            ],
            folded(
                0,
                crate::bench::cells::constant(
                    if crossing {
                        PO_REJECT_CHECKSUM
                    } else {
                        1
                    },
                ),
                32 + samples as nat,
            ),
        ),
        samples: samples as nat,
        brief_rate: 0,
    }
}

/// What a post-only cell records. Whether it crosses is in its label.
pub open spec fn po_cell(samples: usize, scenario: Seq<char>, deep: bool) -> Cell {
    po_record(samples, scenario, spec_labelled_cross(scenario), deep)
}

/// Times post-only submissions against one ask or sixty-four: a cell whose label
/// says so crosses, and every order is refused; any other rests its orders.
pub fn run_po_cell(
    samples: usize,
    scenario: &'static str,
    deep: bool,
    next_taker_id: &mut u64,
    out: &mut Vec<BenchRecord>,
)
    requires
        samples > 0 ==> *old(next_taker_id) + 32 + samples <= 9_000_000 || *old(next_taker_id)
            >= 9_000_064 && *old(next_taker_id) + 32 + samples <= u64::MAX,
    ensures
        if samples == 0 {
            &&& final(out)@ == old(out)@
            &&& *final(next_taker_id) == *old(next_taker_id)
        } else {
            &&& appended(
                old(out)@,
                final(out)@,
                po_cell(samples, scenario@, deep),
            )
            &&& *final(next_taker_id) == *old(next_taker_id) + 32 + samples
        },
{
    if samples == 0 {
        return;
    }
    let count: usize = if deep {
        64
    } else {
        1
    };
    let probe = if labelled_cross(scenario) {
        Probe {
            fate: Fate::Refused,
            price: 100,
            quantity: 5,
            time_in_force: TimeInForce::PostOnly,
            share: Share::Constant(PO_REJECT_CHECKSUM),
            maker_price: 100,
            maker_quantity: 10_000_000,
        }
    } else {
        Probe {
            fate: Fate::Bid,
            price: 99,
            quantity: 1,
            time_in_force: TimeInForce::PostOnly,
            share: Share::Rested,
            maker_price: 100,
            maker_quantity: 10_000_000,
        }
    };
    proof {
        let rounds = (32 + samples) as nat;
        let each = probe.restocks();
        assert(rounds * each == 0) by (nonlinear_arith)
            requires
                each == 0,
        ;
    }
    let result = taker_cell::<128, 8, 16>(
        probe,
        9_000_000,
        count,
        *next_taker_id,
        9_000_064,
        32,
        samples,
    );
    *next_taker_id = result.next_taker;
    let mut params: Vec<(&'static str, Extra)> = Vec::new();
    params.push(("tif", Extra::Text("post_only")));
    params.push(("levels", Extra::U64(count as u64)));
    assert(params_of(params@) =~= po_cell(samples, scenario@, deep).base.params);
    push_book_record(out, scenario, params, result.checksum, result.samples);
}

/// What the time-in-force cells record.
pub open spec fn tif_suite(samples: usize) -> Seq<Cell> {
    if samples == 0 {
        Seq::empty()
    } else {
        seq![
            TifCell::IocEmpty.cell(samples),
            TifCell::IocPartial.cell(samples),
            TifCell::IocFull.cell(samples),
            TifCell::FokReject.cell(samples),
            TifCell::FokSingle.cell(samples),
            TifCell::FokMulti.cell(samples),
            TifCell::GtcFull.cell(samples),
            TifCell::GtcPartialRests.cell(samples),
            po_record(samples, "post_only_cross_shallow"@, true, false),
            po_record(samples, "post_only_cross_deep"@, true, true),
            po_record(samples, "post_only_noncross_shallow"@, false, false),
            po_record(samples, "post_only_noncross_deep"@, false, true),
        ]
    }
}

/// Below-market probes against one deep ask: the zero-fill fast path.
pub fn run_ioc_empty(
    samples: usize,
    next_taker_id: &mut u64,
    replenish_id: &mut u64,
    out: &mut Vec<BenchRecord>,
)
    requires
        0 < samples,
        counters_fit(samples, *old(next_taker_id), *old(replenish_id)),
    ensures
        appended(
            old(out)@,
            final(out)@,
            TifCell::IocEmpty.cell(samples),
        ),
        *final(next_taker_id) == *old(next_taker_id) + WARMUP_SAMPLES + samples,
        *final(replenish_id) == *old(replenish_id) + TifCell::IocEmpty.spec_makers() + (
        WARMUP_SAMPLES + samples) * TifCell::IocEmpty.restocks(),
{
    run_tif_cell(TifCell::IocEmpty, samples, next_taker_id, replenish_id, out);
}

/// Partial fills against a three-unit ask restored between samples.
pub fn run_ioc_partial(
    samples: usize,
    next_taker_id: &mut u64,
    replenish_id: &mut u64,
    out: &mut Vec<BenchRecord>,
)
    requires
        0 < samples,
        counters_fit(samples, *old(next_taker_id), *old(replenish_id)),
    ensures
        appended(
            old(out)@,
            final(out)@,
            TifCell::IocPartial.cell(samples),
        ),
        *final(next_taker_id) == *old(next_taker_id) + WARMUP_SAMPLES + samples,
        *final(replenish_id) == *old(replenish_id) + TifCell::IocPartial.spec_makers() + (
        WARMUP_SAMPLES + samples) * TifCell::IocPartial.restocks(),
{
    run_tif_cell(TifCell::IocPartial, samples, next_taker_id, replenish_id, out);
}

/// Full fills from a deep ask that never depletes.
pub fn run_ioc_full(
    samples: usize,
    next_taker_id: &mut u64,
    replenish_id: &mut u64,
    out: &mut Vec<BenchRecord>,
)
    requires
        0 < samples,
        counters_fit(samples, *old(next_taker_id), *old(replenish_id)),
    ensures
        appended(
            old(out)@,
            final(out)@,
            TifCell::IocFull.cell(samples),
        ),
        *final(next_taker_id) == *old(next_taker_id) + WARMUP_SAMPLES + samples,
        *final(replenish_id) == *old(replenish_id) + TifCell::IocFull.spec_makers() + (
        WARMUP_SAMPLES + samples) * TifCell::IocFull.restocks(),
{
    run_tif_cell(TifCell::IocFull, samples, next_taker_id, replenish_id, out);
}

/// Rejection against a shallow ask; the fixture survives every attempt.
pub fn run_fok_reject(
    samples: usize,
    next_taker_id: &mut u64,
    replenish_id: &mut u64,
    out: &mut Vec<BenchRecord>,
)
    requires
        0 < samples,
        counters_fit(samples, *old(next_taker_id), *old(replenish_id)),
    ensures
        appended(
            old(out)@,
            final(out)@,
            TifCell::FokReject.cell(samples),
        ),
        *final(next_taker_id) == *old(next_taker_id) + WARMUP_SAMPLES + samples,
        *final(replenish_id) == *old(replenish_id) + TifCell::FokReject.spec_makers() + (
        WARMUP_SAMPLES + samples) * TifCell::FokReject.restocks(),
{
    run_tif_cell(TifCell::FokReject, samples, next_taker_id, replenish_id, out);
}

/// Single-unit fills from a deep ask that never depletes.
pub fn run_fok_single(
    samples: usize,
    next_taker_id: &mut u64,
    replenish_id: &mut u64,
    out: &mut Vec<BenchRecord>,
)
    requires
        0 < samples,
        counters_fit(samples, *old(next_taker_id), *old(replenish_id)),
    ensures
        appended(
            old(out)@,
            final(out)@,
            TifCell::FokSingle.cell(samples),
        ),
        *final(next_taker_id) == *old(next_taker_id) + WARMUP_SAMPLES + samples,
        *final(replenish_id) == *old(replenish_id) + TifCell::FokSingle.spec_makers() + (
        WARMUP_SAMPLES + samples) * TifCell::FokSingle.restocks(),
{
    run_tif_cell(TifCell::FokSingle, samples, next_taker_id, replenish_id, out);
}

/// Sweeps of an eight-level fan, re-rested each sample.
pub fn run_fok_multi(
    samples: usize,
    next_taker_id: &mut u64,
    replenish_id: &mut u64,
    out: &mut Vec<BenchRecord>,
)
    requires
        0 < samples,
        counters_fit(samples, *old(next_taker_id), *old(replenish_id)),
    ensures
        appended(
            old(out)@,
            final(out)@,
            TifCell::FokMulti.cell(samples),
        ),
        *final(next_taker_id) == *old(next_taker_id) + WARMUP_SAMPLES + samples,
        *final(replenish_id) == *old(replenish_id) + TifCell::FokMulti.spec_makers() + (
        WARMUP_SAMPLES + samples) * TifCell::FokMulti.restocks(),
{
    run_tif_cell(TifCell::FokMulti, samples, next_taker_id, replenish_id, out);
}

/// Full fills of a resting order, the direct comparison for the immediate one.
pub fn run_gtc_full(
    samples: usize,
    next_taker_id: &mut u64,
    replenish_id: &mut u64,
    out: &mut Vec<BenchRecord>,
)
    requires
        0 < samples,
        counters_fit(samples, *old(next_taker_id), *old(replenish_id)),
    ensures
        appended(
            old(out)@,
            final(out)@,
            TifCell::GtcFull.cell(samples),
        ),
        *final(next_taker_id) == *old(next_taker_id) + WARMUP_SAMPLES + samples,
        *final(replenish_id) == *old(replenish_id) + TifCell::GtcFull.spec_makers() + (
        WARMUP_SAMPLES + samples) * TifCell::GtcFull.restocks(),
{
    run_tif_cell(TifCell::GtcFull, samples, next_taker_id, replenish_id, out);
}

/// Partial fills that rest two units; the bid is cancelled untimed and the maker
/// replenished before the next sample.
pub fn run_gtc_partial_rests(
    samples: usize,
    next_taker_id: &mut u64,
    replenish_id: &mut u64,
    out: &mut Vec<BenchRecord>,
)
    requires
        0 < samples,
        counters_fit(samples, *old(next_taker_id), *old(replenish_id)),
    ensures
        appended(
            old(out)@,
            final(out)@,
            TifCell::GtcPartialRests.cell(samples),
        ),
        *final(next_taker_id) == *old(next_taker_id) + WARMUP_SAMPLES + samples,
        *final(replenish_id) == *old(replenish_id) + TifCell::GtcPartialRests.spec_makers() + (
        WARMUP_SAMPLES + samples) * TifCell::GtcPartialRests.restocks(),
{
    run_tif_cell(TifCell::GtcPartialRests, samples, next_taker_id, replenish_id, out);
}

/// Measures immediate and fill-or-kill submissions against equivalent resting
/// paths, and post-only submissions, one record for each cell.
#[verifier::rlimit(40)]
pub fn tif_benchmark(samples: usize, out: &mut Vec<BenchRecord>)
    requires
        samples <= 666_613,
    ensures
        extended(old(out)@, final(out)@, tif_suite(samples)),
{
    let ghost before = out@;
    if samples == 0 {
        proof {
            lemma_extended_none(before);
        }
        return;
    }
    let mut next_taker_id: u64 = 1_000_000;
    let mut replenish_id: u64 = 5_000_000;
    proof {
        lemma_labels();
        lemma_restocks(samples);
    }
    run_ioc_empty(samples, &mut next_taker_id, &mut replenish_id, out);
    let ghost after_0 = out@;
    run_ioc_partial(samples, &mut next_taker_id, &mut replenish_id, out);
    let ghost after_1 = out@;
    run_ioc_full(samples, &mut next_taker_id, &mut replenish_id, out);
    let ghost after_2 = out@;
    run_fok_reject(samples, &mut next_taker_id, &mut replenish_id, out);
    let ghost after_3 = out@;
    run_fok_single(samples, &mut next_taker_id, &mut replenish_id, out);
    let ghost after_4 = out@;
    run_fok_multi(samples, &mut next_taker_id, &mut replenish_id, out);
    let ghost after_5 = out@;
    run_gtc_full(samples, &mut next_taker_id, &mut replenish_id, out);
    let ghost after_6 = out@;
    run_gtc_partial_rests(samples, &mut next_taker_id, &mut replenish_id, out);
    let ghost after_7 = out@;
    run_po_cell(samples, "post_only_cross_shallow", false, &mut next_taker_id, out);
    let ghost after_8 = out@;
    run_po_cell(samples, "post_only_cross_deep", true, &mut next_taker_id, out);
    let ghost after_9 = out@;
    run_po_cell(samples, "post_only_noncross_shallow", false, &mut next_taker_id, out);
    let ghost after_10 = out@;
    run_po_cell(samples, "post_only_noncross_deep", true, &mut next_taker_id, out);
    let ghost after_11 = out@;
    proof {
        let cells = tif_suite(samples);
        let none = Seq::<Cell>::empty();
        lemma_extended_none(before);
        lemma_extended_one(before, before, after_0, none, cells[0]);
        let some_0 = none.push(cells[0]);
        lemma_extended_one(before, after_0, after_1, some_0, cells[1]);
        let some_1 = some_0.push(cells[1]);
        lemma_extended_one(before, after_1, after_2, some_1, cells[2]);
        let some_2 = some_1.push(cells[2]);
        lemma_extended_one(before, after_2, after_3, some_2, cells[3]);
        let some_3 = some_2.push(cells[3]);
        lemma_extended_one(before, after_3, after_4, some_3, cells[4]);
        let some_4 = some_3.push(cells[4]);
        lemma_extended_one(before, after_4, after_5, some_4, cells[5]);
        let some_5 = some_4.push(cells[5]);
        lemma_extended_one(before, after_5, after_6, some_5, cells[6]);
        let some_6 = some_5.push(cells[6]);
        lemma_extended_one(before, after_6, after_7, some_6, cells[7]);
        let some_7 = some_6.push(cells[7]);
        lemma_extended_one(before, after_7, after_8, some_7, cells[8]);
        let some_8 = some_7.push(cells[8]);
        lemma_extended_one(before, after_8, after_9, some_8, cells[9]);
        let some_9 = some_8.push(cells[9]);
        lemma_extended_one(before, after_9, after_10, some_9, cells[10]);
        let some_10 = some_9.push(cells[10]);
        lemma_extended_one(before, after_10, after_11, some_10, cells[11]);
        let some_11 = some_10.push(cells[11]);
        assert(some_11 =~= cells);
    }
}

/// What the labels of the post-only cells say.
proof fn lemma_labels()
    ensures
        spec_labelled_cross("post_only_cross_shallow"@),
        spec_labelled_cross("post_only_cross_deep"@),
        !spec_labelled_cross("post_only_noncross_shallow"@),
        !spec_labelled_cross("post_only_noncross_deep"@),
{
    reveal_strlit("post_only_cross_shallow");
    reveal_strlit("post_only_cross_deep");
    reveal_strlit("post_only_noncross_shallow");
    reveal_strlit("post_only_noncross_deep");
    assert("post_only_noncross_shallow"@[10] == 'n');
    assert("post_only_noncross_deep"@[10] == 'n');
    assert("post_only_cross_shallow"@[10] == 'c');
    assert("post_only_cross_deep"@[10] == 'c');
}

/// What the cells put back.
proof fn lemma_restocks(samples: usize)
    ensures
        (WARMUP_SAMPLES + samples) * TifCell::IocEmpty.restocks() == 0,
        (WARMUP_SAMPLES + samples) * TifCell::IocPartial.restocks() == WARMUP_SAMPLES + samples,
        (WARMUP_SAMPLES + samples) * TifCell::IocFull.restocks() == 0,
        (WARMUP_SAMPLES + samples) * TifCell::FokReject.restocks() == 0,
        (WARMUP_SAMPLES + samples) * TifCell::FokSingle.restocks() == 0,
        (WARMUP_SAMPLES + samples) * TifCell::FokMulti.restocks() == (WARMUP_SAMPLES + samples) * 8,
        (WARMUP_SAMPLES + samples) * TifCell::GtcFull.restocks() == 0,
        (WARMUP_SAMPLES + samples) * TifCell::GtcPartialRests.restocks() == WARMUP_SAMPLES
            + samples,
{
}

} // verus!
