//! The whole suite, in its fixed order.

use vstd::prelude::*;

use crate::bench::book::{price_benchmark, price_suite};
use crate::bench::cells::{
    extended, lemma_extended_more, lemma_extended_none, lemma_extended_one, Cell,
};
use crate::bench::config::SuiteConfig;
use crate::bench::drive::{
    engine_benchmarks, engine_cell, gateway_cell, push_smoke_record, smoke_record, EngineTrial,
    GatewayRun,
};
use crate::bench::fifo::{fifo_benchmark, fifo_suite};
use crate::bench::handoff::{
    controlled_journal_benchmarks, controlled_suite, drain_suite, enqueue_suite,
    journal_benchmark, journal_drain_benchmark,
};
use crate::bench::journal::{checksum_suite, journal_checksum_benchmarks};
use crate::bench::liquidity::{liquidity_benchmarks, liquidity_suite};
use crate::bench::plan::{match_plan_benchmark, plan_suite};
use crate::bench::record::{BenchRecord, BenchView};
use crate::bench::replace::{replace_benchmarks, replace_suite};
use crate::bench::risk::{risk_benchmark, risk_cells, risk_config_fits};
use crate::bench::stats::{law_percentiles_ascend, sorted};
use crate::bench::sweep::{cancel_benchmark, cancel_cell};
use crate::bench::tif::{tif_benchmark, tif_suite};

verus! {

/// Every cell has samples to take and room to take them in.
pub open spec fn suite_fits(config: SuiteConfig) -> bool {
    &&& 0 < config.cancel_batches
    &&& (config.cancel_batches + 2) * 512 < u64::MAX
    &&& 0 < config.fifo_samples
    &&& config.fifo_samples + 1_064 <= u64::MAX
    &&& risk_config_fits(config)
    &&& 0 < config.price_samples
    &&& 0 < config.plan_samples
    &&& config.tif_samples <= 666_613
}

/// Both sample budgets fit.
pub proof fn law_budgets_fit()
    ensures
        suite_fits(SuiteConfig::spec_full()),
        suite_fits(SuiteConfig::spec_reduced()),
{
}

/// A finished gateway run, with the gateway's digest.
#[derive(Debug)]
pub struct GatewayTrial {
    pub run: GatewayRun,
    pub digest: u64,
}

/// Both finished engine runs.
#[derive(Debug)]
pub struct EnginePair {
    pub composition: EngineTrial,
    pub facade: EngineTrial,
}

/// What comes from the cells that need a gateway, a wire decoder, a session or a
/// snapshot: finished runs, and records.
#[derive(Debug)]
pub struct OutsideCells {
    pub gateway: Option<GatewayTrial>,
    pub parser: Vec<BenchRecord>,
    pub spsc: Vec<BenchRecord>,
    pub mixed: Vec<BenchRecord>,
    pub deep_book: Vec<BenchRecord>,
    pub session: Vec<BenchRecord>,
    pub session_recovery: Vec<BenchRecord>,
    pub recovery: Vec<BenchRecord>,
    pub events: Vec<BenchRecord>,
    pub router: Vec<BenchRecord>,
    pub engine: Option<EnginePair>,
}

impl OutsideCells {
    /// Every run is finished, and both engines have come to the same state.
    pub open spec fn finished(&self, config: SuiteConfig) -> bool {
        &&& self.gateway is Some ==> {
            let run = self.gateway->0.run;
            run.wf() && run@.config == config && run@.iteration == config.gateway_iterations
        }
        &&& self.engine is Some ==> {
            let pair = self.engine->0;
            &&& pair.composition.finished()
            &&& pair.facade.finished()
            &&& pair.composition.run@.count == config.tif_samples
            &&& pair.facade.run@.count == config.tif_samples
            &&& pair.composition.digest@ == pair.facade.digest@
        }
    }

    /// Nothing from outside.
    pub fn none() -> (outside: Self)
        ensures
            forall|config: SuiteConfig| outside.finished(config),
            outside.gateway is None,
            outside.parser@.len() == 0,
            outside.spsc@.len() == 0,
            outside.mixed@.len() == 0,
            outside.deep_book@.len() == 0,
            outside.session@.len() == 0,
            outside.session_recovery@.len() == 0,
            outside.recovery@.len() == 0,
            outside.events@.len() == 0,
            outside.router@.len() == 0,
            outside.engine is None,
    {
        OutsideCells {
            gateway: None,
            parser: Vec::new(),
            spsc: Vec::new(),
            mixed: Vec::new(),
            deep_book: Vec::new(),
            session: Vec::new(),
            session_recovery: Vec::new(),
            recovery: Vec::new(),
            events: Vec::new(),
            router: Vec::new(),
            engine: None,
        }
    }
}

/// What one line of the suite holds.
pub enum Line {
    /// The figures of a cell.
    Measured(Cell),
    /// The figures of samples that were taken outside.
    Reported { base: BenchView, samples: Seq<u64> },
    /// A fixed record.
    Fixed(BenchView),
    /// A record from outside.
    Given(BenchRecord),
}

/// The record is the one for the line.
pub open spec fn fills_line(record: BenchRecord, line: Line) -> bool {
    match line {
        Line::Measured(cell) => record@.measures(cell),
        Line::Reported { base, samples } => record@.reports(base, samples, 0),
        Line::Fixed(view) => record@ == view,
        Line::Given(given) => record == given,
    }
}

/// The records fill the lines, one for one and in order.
#[verifier::opaque]
pub open spec fn fill_lines(records: Seq<BenchRecord>, lines: Seq<Line>) -> bool {
    &&& records.len() == lines.len()
    &&& forall|i: int| 0 <= i < records.len() ==> fills_line(#[trigger] records[i], lines[i])
}

/// One line for each cell.
pub open spec fn measured(cells: Seq<Cell>) -> Seq<Line> {
    Seq::new(cells.len(), |i: int| Line::Measured(cells[i]))
}

/// One line for each record.
pub open spec fn given(records: Seq<BenchRecord>) -> Seq<Line> {
    Seq::new(records.len(), |i: int| Line::Given(records[i]))
}

/// The line of a gateway run, where there was one.
pub open spec fn gateway_lines(trial: Option<GatewayTrial>) -> Seq<Line> {
    match trial {
        None => Seq::empty(),
        Some(trial) => seq![
            Line::Reported {
                base: gateway_cell(trial.run@.config, trial.digest).base,
                samples: trial.run@.samples,
            },
        ],
    }
}

/// The line of one engine run.
pub open spec fn engine_line(path: Seq<char>, trial: EngineTrial) -> Line {
    Line::Reported {
        base: engine_cell(path, trial.state_bytes, trial.run@.count).base,
        samples: trial.run@.samples,
    }
}

/// The lines of both engine runs, where there were any.
pub open spec fn engine_lines(pair: Option<EnginePair>) -> Seq<Line> {
    match pair {
        None => Seq::empty(),
        Some(pair) => seq![
            engine_line("composition"@, pair.composition),
            engine_line("facade"@, pair.facade),
        ],
    }
}

/// The cells of books and of risk: cancel sweep, level depths, risk, price shapes,
/// match plans, liquidity.
#[verifier::opaque]
pub open spec fn book_cells(config: SuiteConfig) -> Seq<Cell> {
    seq![cancel_cell(config)] + fifo_suite(config) + risk_cells(config) + price_suite(config)
        + plan_suite(config) + liquidity_suite(config.fifo_samples)
}

/// The cells of time in force and of replacement.
#[verifier::opaque]
pub open spec fn amend_cells(config: SuiteConfig) -> Seq<Cell> {
    tif_suite(config.tif_samples) + replace_suite(config.tif_samples)
}

/// The cells of the journal: checksums, enqueue, drain, and the controlled channel.
#[verifier::opaque]
pub open spec fn journal_cells(config: SuiteConfig, cpu_crc: Seq<char>) -> Seq<Cell> {
    checksum_suite(config.tif_samples, cpu_crc) + enqueue_suite(config.tif_samples)
        + drain_suite(config.tif_samples, cpu_crc) + controlled_suite(config.tif_samples)
}

/// The lines of the suite, in order: gateway, queue smoke, cancel sweep, level
/// depths, risk, price shapes, match plans, liquidity, parser, queue, seeded mix,
/// deep book, time in force, replacement, session, its recovery, journal
/// checksums, enqueue, drain and controlled journal, recovery, events, router,
/// engine.
pub open spec fn suite_lines(
    config: SuiteConfig,
    cpu_crc: Seq<char>,
    outside: OutsideCells,
) -> Seq<Line> {
    gateway_lines(outside.gateway)
        + seq![Line::Fixed(smoke_record())]
        + measured(book_cells(config))
        + given(outside.parser@)
        + given(outside.spsc@)
        + given(outside.mixed@)
        + given(outside.deep_book@)
        + measured(amend_cells(config))
        + given(outside.session@)
        + given(outside.session_recovery@)
        + measured(journal_cells(config, cpu_crc))
        + given(outside.recovery@)
        + given(outside.events@)
        + given(outside.router@)
        + engine_lines(outside.engine)
}

proof fn lemma_fill_cells(
    before: Seq<BenchRecord>,
    after: Seq<BenchRecord>,
    lines: Seq<Line>,
    cells: Seq<Cell>,
)
    requires
        fill_lines(before, lines),
        extended(before, after, cells),
    ensures
        fill_lines(after, lines + measured(cells)),
{
    reveal(fill_lines);
    let all = lines + measured(cells);
    assert forall|i: int| 0 <= i < after.len() implies fills_line(#[trigger] after[i], all[i]) by {
        if i < before.len() {
            assert(after[i] == before[i]);
            assert(all[i] == lines[i]);
        } else {
            assert(all[i] == Line::Measured(cells[i - before.len()]));
        }
    }
}

proof fn lemma_fill_given(
    before: Seq<BenchRecord>,
    lines: Seq<Line>,
    more: Seq<BenchRecord>,
)
    requires
        fill_lines(before, lines),
    ensures
        fill_lines(before + more, lines + given(more)),
{
    reveal(fill_lines);
    let after = before + more;
    let all = lines + given(more);
    assert forall|i: int| 0 <= i < after.len() implies fills_line(#[trigger] after[i], all[i]) by {
        if i < before.len() {
            assert(after[i] == before[i]);
            assert(all[i] == lines[i]);
        } else {
            assert(all[i] == Line::Given(more[i - before.len()]));
        }
    }
}

proof fn lemma_fill_one(
    before: Seq<BenchRecord>,
    after: Seq<BenchRecord>,
    lines: Seq<Line>,
    line: Line,
)
    requires
        fill_lines(before, lines),
        after.len() == before.len() + 1,
        after.drop_last() == before,
        fills_line(after.last(), line),
    ensures
        fill_lines(after, lines + seq![line]),
{
    reveal(fill_lines);
    let all = lines + seq![line];
    assert forall|i: int| 0 <= i < after.len() implies fills_line(#[trigger] after[i], all[i]) by {
        if i < before.len() {
            assert(after[i] == after.drop_last()[i]);
            assert(all[i] == lines[i]);
        }
    }
}

/// Appends records from outside.
fn give(records: &mut Vec<BenchRecord>, more: Vec<BenchRecord>)
    ensures
        final(records)@ == old(records)@ + more@,
{
    let mut rest = more;
    records.append(&mut rest);
}

/// The record of a gateway run, where there was one.
fn gateway_record(gateway: Option<GatewayTrial>) -> (records: Vec<
    BenchRecord,
>)
    requires
        gateway is Some ==> gateway->0.run.wf(),
    ensures
        fill_lines(records@, gateway_lines(gateway)),
{
    let mut records: Vec<BenchRecord> = Vec::new();
    proof {
        reveal(fill_lines);
    }
    if let Some(trial) = gateway {
        trial.run.finish(trial.digest, &mut records);
    }
    records
}

/// Appends the records of both engine runs, where there were any.
fn engine_records(
    engine: Option<EnginePair>,
    records: &mut Vec<BenchRecord>,
    Ghost(lines): Ghost<Seq<Line>>,
)
    requires
        fill_lines(old(records)@, lines),
        engine is Some ==> {
            let pair = engine->0;
            &&& pair.composition.finished()
            &&& pair.facade.finished()
            &&& pair.composition.digest@ == pair.facade.digest@
        },
    ensures
        fill_lines(final(records)@, lines + engine_lines(engine)),
{
    let ghost before = records@;
    let ghost end = engine_lines(engine);
    if let Some(pair) = engine {
        let ghost composition = pair.composition;
        let ghost facade = pair.facade;
        engine_benchmarks(pair.composition, pair.facade, records);
        proof {
            let middle = records@.drop_last();
            assert(middle.drop_last() =~= before) by {
                assert(records@.take(before.len() as int) == before);
            }
            lemma_fill_one(before, middle, lines, engine_line("composition"@, composition));
            let more = lines + seq![engine_line("composition"@, composition)];
            lemma_fill_one(middle, records@, more, engine_line("facade"@, facade));
            assert(more + seq![engine_line("facade"@, facade)] =~= lines + end);
        }
    } else {
        assert(lines + end =~= lines);
    }
}

/// Times the cells of books and of risk.
fn run_book_cells(config: SuiteConfig, out: &mut Vec<BenchRecord>)
    requires
        suite_fits(config),
    ensures
        extended(old(out)@, final(out)@, book_cells(config)),
{
    let ghost start = out@;
    cancel_benchmark(config, out);
    let ghost r1 = out@;
    let ghost c1 = Seq::<Cell>::empty().push(cancel_cell(config));
    proof {
        lemma_extended_none(start);
        lemma_extended_one(start, start, r1, Seq::empty(), cancel_cell(config));
    }
    fifo_benchmark(config, out);
    let ghost r2 = out@;
    let ghost c2 = c1 + fifo_suite(config);
    proof {
        lemma_extended_more(start, r1, r2, c1, fifo_suite(config));
    }
    risk_benchmark(config, out);
    let ghost r3 = out@;
    let ghost c3 = c2 + risk_cells(config);
    proof {
        lemma_extended_more(start, r2, r3, c2, risk_cells(config));
    }
    price_benchmark(config, out);
    let ghost r4 = out@;
    let ghost c4 = c3 + price_suite(config);
    proof {
        lemma_extended_more(start, r3, r4, c3, price_suite(config));
    }
    match_plan_benchmark(config, out);
    let ghost r5 = out@;
    let ghost c5 = c4 + plan_suite(config);
    proof {
        lemma_extended_more(start, r4, r5, c4, plan_suite(config));
    }
    liquidity_benchmarks(config.fifo_samples, out);
    proof {
        lemma_extended_more(start, r5, out@, c5, liquidity_suite(config.fifo_samples));
        assert(c1 =~= seq![cancel_cell(config)]);
        reveal(book_cells);
    }
}

/// Times the cells of time in force and of replacement.
fn run_amend_cells(config: SuiteConfig, out: &mut Vec<BenchRecord>)
    requires
        suite_fits(config),
    ensures
        extended(old(out)@, final(out)@, amend_cells(config)),
{
    let ghost start = out@;
    tif_benchmark(config.tif_samples, out);
    let ghost middle = out@;
    replace_benchmarks(config.tif_samples, out);
    proof {
        reveal(amend_cells);
        lemma_extended_more(
            start,
            middle,
            out@,
            tif_suite(config.tif_samples),
            replace_suite(config.tif_samples),
        );
    }
}

/// Times the cells of the journal.
fn run_journal_cells(config: SuiteConfig, cpu_crc: &'static str, out: &mut Vec<BenchRecord>)
    requires
        suite_fits(config),
    ensures
        extended(old(out)@, final(out)@, journal_cells(config, cpu_crc@)),
{
    let samples: usize = config.tif_samples;
    let ghost start = out@;
    journal_checksum_benchmarks(samples, cpu_crc, out);
    let ghost r1 = out@;
    let ghost c1 = checksum_suite(samples, cpu_crc@);
    journal_benchmark(samples, out);
    let ghost r2 = out@;
    let ghost c2 = c1 + enqueue_suite(samples);
    proof {
        lemma_extended_more(start, r1, r2, c1, enqueue_suite(samples));
    }
    journal_drain_benchmark(samples, cpu_crc, out);
    let ghost r3 = out@;
    let ghost c3 = c2 + drain_suite(samples, cpu_crc@);
    proof {
        lemma_extended_more(start, r2, r3, c2, drain_suite(samples, cpu_crc@));
    }
    controlled_journal_benchmarks(samples, out);
    proof {
        lemma_extended_more(start, r3, out@, c3, controlled_suite(samples));
        reveal(journal_cells);
    }
}

/// Runs every workload of the library once, and puts what comes from outside in
/// its place. `cpu_crc` names the checksum instruction of the machine.
pub fn suite_records(config: SuiteConfig, cpu_crc: &'static str, outside: OutsideCells) -> (records:
    Vec<BenchRecord>)
    requires
        suite_fits(config),
        outside.finished(config),
    ensures
        fill_lines(records@, suite_lines(config, cpu_crc@, outside)),
{
    let OutsideCells {
        gateway,
        parser,
        spsc,
        mixed,
        deep_book,
        session,
        session_recovery,
        recovery,
        events,
        router,
        engine,
    } = outside;
    let mut records = gateway_record(gateway);
    let ghost mut lines = gateway_lines(gateway);
    let ghost before = records@;
    push_smoke_record(&mut records);
    proof {
        lemma_fill_one(before, records@, lines, Line::Fixed(smoke_record()));
        lines = lines + seq![Line::Fixed(smoke_record())];
    }
    let ghost before = records@;
    run_book_cells(config, &mut records);
    proof {
        lemma_fill_cells(before, records@, lines, book_cells(config));
        lines = lines + measured(book_cells(config));
    }
    proof {
        lemma_fill_given(records@, lines, parser@);
        lines = lines + given(parser@);
    }
    give(&mut records, parser);
    proof {
        lemma_fill_given(records@, lines, spsc@);
        lines = lines + given(spsc@);
    }
    give(&mut records, spsc);
    proof {
        lemma_fill_given(records@, lines, mixed@);
        lines = lines + given(mixed@);
    }
    give(&mut records, mixed);
    proof {
        lemma_fill_given(records@, lines, deep_book@);
        lines = lines + given(deep_book@);
    }
    give(&mut records, deep_book);
    let ghost before = records@;
    run_amend_cells(config, &mut records);
    proof {
        lemma_fill_cells(before, records@, lines, amend_cells(config));
        lines = lines + measured(amend_cells(config));
    }
    proof {
        lemma_fill_given(records@, lines, session@);
        lines = lines + given(session@);
    }
    give(&mut records, session);
    proof {
        lemma_fill_given(records@, lines, session_recovery@);
        lines = lines + given(session_recovery@);
    }
    give(&mut records, session_recovery);
    let ghost before = records@;
    run_journal_cells(config, cpu_crc, &mut records);
    proof {
        lemma_fill_cells(before, records@, lines, journal_cells(config, cpu_crc@));
        lines = lines + measured(journal_cells(config, cpu_crc@));
    }
    proof {
        lemma_fill_given(records@, lines, recovery@);
        lines = lines + given(recovery@);
    }
    give(&mut records, recovery);
    proof {
        lemma_fill_given(records@, lines, events@);
        lines = lines + given(events@);
    }
    give(&mut records, events);
    proof {
        lemma_fill_given(records@, lines, router@);
        lines = lines + given(router@);
    }
    give(&mut records, router);
    engine_records(engine, &mut records, Ghost(lines));
    records
}

/// Runs the suite and gives one line of JSON for each record, in order.
pub fn run_suite(config: SuiteConfig, cpu_crc: &'static str, outside: OutsideCells) -> (lines: Vec<
    String,
>)
    requires
        suite_fits(config),
        outside.finished(config),
    ensures
        exists|records: Seq<BenchRecord>| #[trigger]
            fill_lines(records, suite_lines(config, cpu_crc@, outside)) && in_json(
                records,
                lines@,
            ),
{
    let records = suite_records(config, cpu_crc, outside);
    json_lines(&records)
}

/// The lines are the records in JSON.
pub open spec fn in_json(records: Seq<BenchRecord>, lines: Seq<String>) -> bool {
    &&& lines.len() == records.len()
    &&& forall|i: int| 0 <= i < records.len() ==> (#[trigger] lines[i])@ == records[i]@.json()
}

/// One line of JSON for each record, in order.
pub fn json_lines(records: &Vec<BenchRecord>) -> (lines: Vec<String>)
    ensures
        in_json(records@, lines@),
{
    let mut lines: Vec<String> = Vec::new();
    let mut index: usize = 0;
    while index < records.len()
        invariant
            index <= records@.len(),
            lines@.len() == index,
            forall|i: int| 0 <= i < index ==> (#[trigger] lines@[i])@ == records@[i]@.json(),
        decreases records@.len() - index,
    {
        lines.push(records[index].to_json_line());
        index = index + 1;
    }
    lines
}

/// A cell takes a sample, and counts no allocation.
pub open spec fn plain(cell: Cell) -> bool {
    &&& cell.samples >= 1
    &&& cell.samples <= usize::MAX
    &&& cell.base.allocations == 0
    &&& cell.base.deallocations == 0
}

/// Every cell is plain.
pub open spec fn all_plain(cells: Seq<Cell>) -> bool {
    forall|i: int| 0 <= i < cells.len() ==> plain(#[trigger] cells[i])
}

/// Every cell of the library is plain.
pub proof fn law_cells_are_plain(config: SuiteConfig, cpu_crc: Seq<char>)
    requires
        suite_fits(config),
    ensures
        all_plain(book_cells(config)),
        all_plain(amend_cells(config)),
        all_plain(journal_cells(config, cpu_crc)),
{
    reveal(book_cells);
    reveal(amend_cells);
    reveal(journal_cells);
    lemma_plain_cells(config, cpu_crc);
}

proof fn lemma_plain_cells(config: SuiteConfig, cpu_crc: Seq<char>)
    requires
        suite_fits(config),
    ensures
        plain(cancel_cell(config)),
        all_plain(fifo_suite(config)),
        all_plain(risk_cells(config)),
        all_plain(price_suite(config)),
        all_plain(plan_suite(config)),
        all_plain(liquidity_suite(config.fifo_samples)),
        all_plain(tif_suite(config.tif_samples)),
        all_plain(replace_suite(config.tif_samples)),
        all_plain(checksum_suite(config.tif_samples, cpu_crc)),
        all_plain(enqueue_suite(config.tif_samples)),
        all_plain(drain_suite(config.tif_samples, cpu_crc)),
        all_plain(controlled_suite(config.tif_samples)),
{
}

/// The suite has more than forty lines, where the cells that take `tif_samples`
/// take any.
pub proof fn law_suite_is_long(config: SuiteConfig, cpu_crc: Seq<char>, outside: OutsideCells)
    requires
        suite_fits(config),
        config.tif_samples > 0,
    ensures
        suite_lines(config, cpu_crc, outside).len() > 40,
{
    reveal(book_cells);
    reveal(amend_cells);
}

/// At least one sample, percentiles that ascend, and no allocation.
pub open spec fn sound(record: BenchView) -> bool {
    &&& record.samples >= 1
    &&& record.p50_ns <= record.p90_ns <= record.p99_ns <= record.p99_9_ns <= record.max_ns
    &&& record.allocations == 0
    &&& record.deallocations == 0
}

/// The figures of a plain cell are sound.
pub proof fn law_cell_figures_are_sound(record: BenchRecord, cell: Cell)
    requires
        plain(cell),
        record@.measures(cell),
    ensures
        sound(record@),
{
    let samples = choose|samples: Seq<u64>|
        samples.len() == cell.samples && sorted(samples) && record@
            == #[trigger] cell.base.with_samples(samples, cell.brief_rate);
    law_percentiles_ascend(samples);
}

/// The figures of samples that were taken outside are sound.
proof fn lemma_reported_is_sound(record: BenchRecord, base: BenchView, samples: Seq<u64>)
    requires
        1 <= samples.len() <= usize::MAX,
        base.allocations == 0,
        base.deallocations == 0,
        record@.reports(base, samples, 0),
    ensures
        sound(record@),
{
    reveal(BenchView::reports);
    let ordered = choose|ordered: Seq<u64>|
        ordered.to_multiset() == samples.to_multiset() && sorted(ordered) && record@
            == #[trigger] base.with_samples(ordered, 0);
    ordered.to_multiset_ensures();
    samples.to_multiset_ensures();
    law_percentiles_ascend(ordered);
}

/// Whatever fills the line is sound, unless it comes from outside as it is.
spec fn line_sound(line: Line) -> bool {
    match line {
        Line::Measured(cell) => plain(cell),
        Line::Reported { base, samples } => {
            &&& 1 <= samples.len() <= usize::MAX
            &&& base.allocations == 0
            &&& base.deallocations == 0
        },
        Line::Fixed(view) => sound(view),
        Line::Given(_) => true,
    }
}

#[verifier::opaque]
spec fn lines_sound(lines: Seq<Line>) -> bool {
    forall|i: int| 0 <= i < lines.len() ==> line_sound(#[trigger] lines[i])
}

proof fn lemma_join_sound(first: Seq<Line>, second: Seq<Line>)
    requires
        lines_sound(first),
        lines_sound(second),
    ensures
        lines_sound(first + second),
{
    reveal(lines_sound);
}

proof fn lemma_given_sound(records: Seq<BenchRecord>)
    ensures
        lines_sound(given(records)),
{
    reveal(lines_sound);
}

proof fn lemma_measured_sound(cells: Seq<Cell>)
    requires
        all_plain(cells),
    ensures
        lines_sound(measured(cells)),
{
    reveal(lines_sound);
}

/// The suite up to its replacement cells has sound lines.
proof fn lemma_first_lines_sound(config: SuiteConfig, outside: OutsideCells) -> (lines: Seq<Line>)
    requires
        suite_fits(config),
        outside.finished(config),
    ensures
        lines_sound(lines),
        lines == gateway_lines(outside.gateway) + seq![Line::Fixed(smoke_record())]
            + measured(book_cells(config)) + given(outside.parser@) + given(outside.spsc@)
            + given(outside.mixed@) + given(outside.deep_book@) + measured(amend_cells(config)),
{
    law_cells_are_plain(config, seq![]);
    let gateway = gateway_lines(outside.gateway);
    let smoke = seq![Line::Fixed(smoke_record())];
    assert(lines_sound(gateway) && lines_sound(smoke)) by {
        reveal(lines_sound);
    }
    lemma_join_sound(gateway, smoke);
    let lines = gateway + smoke;
    lemma_measured_sound(book_cells(config));
    lemma_join_sound(lines, measured(book_cells(config)));
    let lines = lines + measured(book_cells(config));
    lemma_given_sound(outside.parser@);
    lemma_join_sound(lines, given(outside.parser@));
    let lines = lines + given(outside.parser@);
    lemma_given_sound(outside.spsc@);
    lemma_join_sound(lines, given(outside.spsc@));
    let lines = lines + given(outside.spsc@);
    lemma_given_sound(outside.mixed@);
    lemma_join_sound(lines, given(outside.mixed@));
    let lines = lines + given(outside.mixed@);
    lemma_given_sound(outside.deep_book@);
    lemma_join_sound(lines, given(outside.deep_book@));
    let lines = lines + given(outside.deep_book@);
    lemma_measured_sound(amend_cells(config));
    lemma_join_sound(lines, measured(amend_cells(config)));
    lines + measured(amend_cells(config))
}

proof fn lemma_suite_lines_sound(config: SuiteConfig, cpu_crc: Seq<char>, outside: OutsideCells)
    requires
        suite_fits(config),
        outside.finished(config),
    ensures
        lines_sound(suite_lines(config, cpu_crc, outside)),
{
    let lines = lemma_first_lines_sound(config, outside);
    law_cells_are_plain(config, cpu_crc);
    lemma_given_sound(outside.session@);
    lemma_join_sound(lines, given(outside.session@));
    let lines = lines + given(outside.session@);
    lemma_given_sound(outside.session_recovery@);
    lemma_join_sound(lines, given(outside.session_recovery@));
    let lines = lines + given(outside.session_recovery@);
    lemma_measured_sound(journal_cells(config, cpu_crc));
    lemma_join_sound(lines, measured(journal_cells(config, cpu_crc)));
    let lines = lines + measured(journal_cells(config, cpu_crc));
    lemma_given_sound(outside.recovery@);
    lemma_join_sound(lines, given(outside.recovery@));
    let lines = lines + given(outside.recovery@);
    lemma_given_sound(outside.events@);
    lemma_join_sound(lines, given(outside.events@));
    let lines = lines + given(outside.events@);
    lemma_given_sound(outside.router@);
    lemma_join_sound(lines, given(outside.router@));
    let lines = lines + given(outside.router@);
    assert(lines_sound(engine_lines(outside.engine))) by {
        reveal(lines_sound);
    }
    lemma_join_sound(lines, engine_lines(outside.engine));
}

/// Every record of the suite has at least one sample, percentiles that ascend and
/// no allocation, unless it came from outside as it is.
pub proof fn law_suite_figures_are_sound(
    config: SuiteConfig,
    cpu_crc: Seq<char>,
    outside: OutsideCells,
    records: Seq<BenchRecord>,
    index: int,
)
    requires
        suite_fits(config),
        outside.finished(config),
        fill_lines(records, suite_lines(config, cpu_crc, outside)),
        0 <= index < records.len(),
    ensures
        suite_lines(config, cpu_crc, outside)[index] is Given || sound(records[index]@),
{
    lemma_suite_lines_sound(config, cpu_crc, outside);
    reveal(fill_lines);
    reveal(lines_sound);
    let line = suite_lines(config, cpu_crc, outside)[index];
    assert(fills_line(records[index], line));
    assert(line_sound(line));
    match line {
        Line::Measured(cell) => law_cell_figures_are_sound(records[index], cell),
        Line::Reported { base, samples } => lemma_reported_is_sound(records[index], base, samples),
        _ => {},
    }
}

} // verus!
