//! One record for each benchmark cell.

use vstd::prelude::*;

use crate::bench::cells::Cell;
use crate::bench::stats::{
    analyze, law_percentiles_are_nearest_ranks, lemma_sum_bounds, sorted, stats_of, sum,
};

verus! {

/// A parameter of a cell.
#[derive(Clone, Copy, Debug, PartialEq, Eq)]
pub enum Extra {
    U64(u64),
    Text(&'static str),
}

pub enum ExtraView {
    U64(u64),
    Text(Seq<char>),
}

impl View for Extra {
    type V = ExtraView;

    open spec fn view(&self) -> ExtraView {
        match *self {
            Extra::U64(value) => ExtraView::U64(value),
            Extra::Text(text) => ExtraView::Text(text@),
        }
    }
}

/// What one cell measured.
#[derive(Clone, Debug, PartialEq, Eq)]
pub struct BenchRecord {
    pub boundary: &'static str,
    pub component: &'static str,
    pub scenario: &'static str,
    pub params: Vec<(&'static str, Extra)>,
    pub checksum: u64,
    pub samples: usize,
    pub mean_ns: u64,
    pub p50_ns: u64,
    pub p90_ns: u64,
    pub p99_ns: u64,
    pub p99_9_ns: u64,
    pub max_ns: u64,
    pub ops_per_second: u64,
    /// Allocations counted around the timed region. Nothing is counted here.
    pub allocations: u64,
    /// Deallocations counted around the timed region. Nothing is counted here.
    pub deallocations: u64,
}

/// A record as a mathematical value.
#[verifier::ext_equal]
pub struct BenchView {
    pub boundary: Seq<char>,
    pub component: Seq<char>,
    pub scenario: Seq<char>,
    pub params: Seq<(Seq<char>, ExtraView)>,
    pub checksum: u64,
    pub samples: usize,
    pub mean_ns: u64,
    pub p50_ns: u64,
    pub p90_ns: u64,
    pub p99_ns: u64,
    pub p99_9_ns: u64,
    pub max_ns: u64,
    pub ops_per_second: u64,
    pub allocations: u64,
    pub deallocations: u64,
}

/// The names and values of parameters.
pub open spec fn params_of(params: Seq<(&'static str, Extra)>) -> Seq<(Seq<char>, ExtraView)> {
    Seq::new(params.len(), |i: int| (params[i].0@, params[i].1@))
}

impl View for BenchRecord {
    type V = BenchView;

    open spec fn view(&self) -> BenchView {
        BenchView {
            boundary: self.boundary@,
            component: self.component@,
            scenario: self.scenario@,
            params: params_of(self.params@),
            checksum: self.checksum,
            samples: self.samples,
            mean_ns: self.mean_ns,
            p50_ns: self.p50_ns,
            p90_ns: self.p90_ns,
            p99_ns: self.p99_ns,
            p99_9_ns: self.p99_9_ns,
            max_ns: self.max_ns,
            ops_per_second: self.ops_per_second,
            allocations: self.allocations,
            deallocations: self.deallocations,
        }
    }
}

impl BenchView {
    /// A record with nothing measured.
    pub open spec fn blank(
        boundary: Seq<char>,
        component: Seq<char>,
        scenario: Seq<char>,
        params: Seq<(Seq<char>, ExtraView)>,
        checksum: u64,
    ) -> BenchView {
        BenchView {
            boundary,
            component,
            scenario,
            params,
            checksum,
            samples: 0,
            mean_ns: 0,
            p50_ns: 0,
            p90_ns: 0,
            p99_ns: 0,
            p99_9_ns: 0,
            max_ns: 0,
            ops_per_second: 0,
            allocations: 0,
            deallocations: 0,
        }
    }

    /// The record with the figures of a sorted sample set. A mean that is too short
    /// for the clock counts as `brief_rate`.
    pub open spec fn with_samples(self, samples: Seq<u64>, brief_rate: u64) -> BenchView {
        let stats = stats_of(samples);
        let mean = if stats.mean > u64::MAX {
            u64::MAX
        } else {
            stats.mean as u64
        };
        BenchView {
            samples: samples.len() as usize,
            mean_ns: mean,
            p50_ns: stats.p50,
            p90_ns: stats.p90,
            p99_ns: stats.p99,
            p99_9_ns: stats.p99_9,
            max_ns: stats.max,
            ops_per_second: if mean == 0 {
                brief_rate
            } else {
                1_000_000_000u64 / mean
            },
            ..self
        }
    }

    /// The record has the figures of as many samples as the cell takes, and is
    /// otherwise what the cell records.
    pub open spec fn measures(self, cell: Cell) -> bool {
        exists|samples: Seq<u64>|
            samples.len() == cell.samples && sorted(samples) && self
                == #[trigger] cell.base.with_samples(samples, cell.brief_rate)
    }

    /// The record has the figures of these samples, and is otherwise `base`.
    #[verifier::opaque]
    pub open spec fn reports(self, base: BenchView, samples: Seq<u64>, brief_rate: u64) -> bool {
        exists|ordered: Seq<u64>|
            ordered.to_multiset() == samples.to_multiset() && sorted(ordered) && self
                == #[trigger] base.with_samples(ordered, brief_rate)
    }
}

impl BenchRecord {
    /// A record with nothing measured.
    pub fn new(
        boundary: &'static str,
        component: &'static str,
        scenario: &'static str,
        params: Vec<(&'static str, Extra)>,
        checksum: u64,
    ) -> (record: Self)
        ensures
            record@ == BenchView::blank(
                boundary@,
                component@,
                scenario@,
                params_of(params@),
                checksum,
            ),
    {
        BenchRecord {
            boundary,
            component,
            scenario,
            params,
            checksum,
            samples: 0,
            mean_ns: 0,
            p50_ns: 0,
            p90_ns: 0,
            p99_ns: 0,
            p99_9_ns: 0,
            max_ns: 0,
            ops_per_second: 0,
            allocations: 0,
            deallocations: 0,
        }
    }
}

/// The records before, and one more that measures the cell.
pub open spec fn appended(
    before: Seq<BenchRecord>,
    after: Seq<BenchRecord>,
    cell: Cell,
) -> bool {
    &&& after.len() == before.len() + 1
    &&& after.drop_last() == before
    &&& after.last()@.measures(cell)
}

/// The records before, and one more with the figures of these samples.
pub open spec fn recorded(
    before: Seq<BenchRecord>,
    after: Seq<BenchRecord>,
    base: BenchView,
    samples: Seq<u64>,
    brief_rate: u64,
) -> bool {
    &&& appended(before, after, Cell { base, samples: samples.len(), brief_rate })
    &&& after.last()@.reports(base, samples, brief_rate)
}

/// Derives the figures of a cell from its samples and appends its record. The rate
/// of a mean that is too short for the clock is zero.
pub fn push_latency_record(out: &mut Vec<BenchRecord>, record: BenchRecord, samples: Vec<u64>)
    requires
        samples@.len() > 0,
    ensures
        recorded(old(out)@, final(out)@, record@, samples@, 0),
{
    push_figures(out, record, samples, 0);
}

/// Derives the figures of a cell from its samples and appends its record.
pub fn push_figures(
    out: &mut Vec<BenchRecord>,
    record: BenchRecord,
    samples: Vec<u64>,
    brief_rate: u64,
)
    requires
        samples@.len() > 0,
    ensures
        recorded(old(out)@, final(out)@, record@, samples@, brief_rate),
{
    let ghost before = out@;
    let ghost base = record@;
    let mut sorted_samples = samples;
    let stats = analyze(&mut sorted_samples);
    let mean: u64 = if stats.mean > u64::MAX as u128 {
        u64::MAX
    } else {
        stats.mean as u64
    };
    let ops: u64 = if mean == 0 {
        brief_rate
    } else {
        1_000_000_000 / mean
    };
    let filled = BenchRecord {
        boundary: record.boundary,
        component: record.component,
        scenario: record.scenario,
        params: record.params,
        checksum: record.checksum,
        samples: sorted_samples.len(),
        mean_ns: mean,
        p50_ns: stats.p50,
        p90_ns: stats.p90,
        p99_ns: stats.p99,
        p99_9_ns: stats.p99_9,
        max_ns: stats.max,
        ops_per_second: ops,
        allocations: record.allocations,
        deallocations: record.deallocations,
    };
    let ghost cell = Cell { base, samples: samples@.len(), brief_rate };
    assert(filled@ =~= cell.base.with_samples(sorted_samples@, cell.brief_rate));
    assert(filled@.measures(cell));
    assert(filled@.reports(base, samples@, brief_rate)) by {
        reveal(BenchView::reports);
    }
    out.push(filled);
    assert(out@.drop_last() =~= before);
}

/// The figures of a sorted sample set in a record, which keeps all that it says of the
/// cell. The rate is how many operations of mean length fit in a second.
pub proof fn law_figures_come_from_samples(base: BenchView, samples: Seq<u64>, brief_rate: u64)
    requires
        0 < samples.len(),
        samples.len() * 1000 <= usize::MAX,
    ensures
        ({
            let record = base.with_samples(samples, brief_rate);
            let count = samples.len() as int;
            let total = sum(samples);
            &&& record.samples == count
            &&& record.mean_ns * count <= total < (record.mean_ns + 1) * count
            &&& record.p50_ns == samples[(count * 500 + 999) / 1000 - 1]
            &&& record.p90_ns == samples[(count * 900 + 999) / 1000 - 1]
            &&& record.p99_ns == samples[(count * 990 + 999) / 1000 - 1]
            &&& record.p99_9_ns == samples[(count * 999 + 999) / 1000 - 1]
            &&& record.max_ns == samples[count - 1]
            &&& record.mean_ns == 0 ==> record.ops_per_second == brief_rate
            &&& record.mean_ns > 0 ==> record.ops_per_second == 1_000_000_000u64 / record.mean_ns
            &&& record.boundary == base.boundary
            &&& record.component == base.component
            &&& record.scenario == base.scenario
            &&& record.params == base.params
            &&& record.checksum == base.checksum
            &&& record.allocations == base.allocations
            &&& record.deallocations == base.deallocations
        }),
{
    law_percentiles_are_nearest_ranks(samples);
    let count = samples.len() as int;
    let total = sum(samples);
    lemma_sum_bounds(samples, 0, u64::MAX as int);
    assert(total / count <= u64::MAX) by (nonlinear_arith)
        requires
            count > 0,
            0 <= total <= u64::MAX * count,
    ;
}

} // verus!
