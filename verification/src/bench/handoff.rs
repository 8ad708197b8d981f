//! Cells of the journal channel, its persistence, and recovery.

use vstd::prelude::*;

use crate::bench::cells::{
    constant, extended, folded, least, lemma_extended_none, lemma_extended_one, rotated,
    spec_rotated, Cell,
};
use crate::bench::clock::{repeat, time_samples, time_steps, warm_up, Workload};
use crate::bench::journal::{
    cell_record, cell_records, checksum_params, fill_record, journal_base, lemma_cell_record,
    payload, payload_bytes, push_journal_record, sealed, BRIEF_RATE,
};
use crate::bench::record::{appended, params_of, BenchRecord, Extra, ExtraView};
use crate::journal::channel::{
    JournalChannel, JournalReader, JournalStatus, JournalWriter, ReaderView,
};
use crate::journal::record::RecordView;
use crate::journal::recovery::{in_order, law_recover_counts_records, recover};
use crate::journal::sink::{DurableSink, MemorySink};
use crate::journal::worker::{disk, lemma_disk_step, FlushPolicy, PersistenceWorker};
use crate::journal::{MAX_PAYLOAD, RECORD_SIZE};

verus! {

/// Untimed rounds before an enqueue is timed.
pub const HALF_RING: u64 = 512;

/// What the enqueued sequences add to the checksum.
pub open spec fn shifted_series(first: u64) -> spec_fn(nat) -> u64 {
    |i: nat| ((first + i) as u64) >> ((i % 64) as u64)
}

/// One more sequence in the checksum.
pub fn checksum_fold(checksum: &mut u64, sequence: u64, offset: u64)
    ensures
        *final(checksum) == *old(checksum) ^ (sequence >> ((offset % 64) as u64)),
{
    *checksum = *checksum ^ (sequence >> (offset % 64));
}

/// Enqueues a record and takes it out again.
pub struct EnqueueWork {
    channel: JournalChannel,
    writer: JournalWriter,
    reader: JournalReader,
    controlled: bool,
    first: u64,
    checksum: u64,
    limit: Ghost<nat>,
}

impl EnqueueWork {
    spec fn steady(self, written: nat, read: nat) -> bool {
        &&& self.channel.wf()
        &&& self.first + self.limit@ < u64::MAX
        &&& written <= self.limit@
        &&& self.writer@.next_sequence == self.first + written
        &&& self.channel.records() == cell_records(self.first + read, (written - read) as nat)
        &&& self.controlled ==> {
            &&& self.reader@.expected_sequence == self.first + read
            &&& !self.reader@.poisoned
        }
        &&& self.checksum == folded(0, shifted_series(self.first), written)
    }
}

impl Workload for EnqueueWork {
    type Job = (bool, u64);

    closed spec fn job(&self) -> (bool, u64) {
        (self.controlled, self.first)
    }

    closed spec fn limit(&self) -> nat {
        self.limit@
    }

    closed spec fn ready(&self, done: nat) -> bool {
        self.steady(done, done)
    }

    closed spec fn ran(&self, done: nat) -> bool {
        self.steady(done + 1, done)
    }

    fn run(&mut self, index: u64) {
        let ghost before = *self;
        let bytes = payload_bytes();
        let sequence: u64 = match self.writer.enqueue(&mut self.channel, bytes.as_slice()) {
            Ok(sequence) => sequence.0,
            Err(error) => vstd::pervasive::unreached(),
        };
        checksum_fold(&mut self.checksum, sequence, index);
        proof {
            assert(shifted_series(self.first)(index as nat) == sequence >> ((index % 64) as u64));
            assert(self.channel.records() =~= cell_records(self.first + index, 1));
        }
    }

    fn restore(&mut self, index: u64) {
        proof {
            lemma_cell_record(self.first + index);
            assert(self.channel.records()[0] == cell_record(self.first + index));
            assert(self.channel.records().skip(1) =~= cell_records(self.first + index + 1, 0));
        }
        if self.controlled {
            let record = self.reader.read(&mut self.channel);
            assert(record is Ok);
            assert(record->Ok_0@.content() == payload());
        } else {
            let record = self.channel.pop_record();
            assert(record is Some);
        }
    }
}

/// Times the enqueue of one record into a ring that never fills. It returns the
/// samples and the checksum of the sequences.
fn enqueue_cell(controlled: bool, samples: usize) -> (result: (Vec<u64>, u64))
    requires
        samples + HALF_RING + 2 < u64::MAX,
    ensures
        result.0@.len() == samples,
        result.1 == folded(0, shifted_series(513), samples as nat),
{
    let mut channel = match JournalChannel::try_new() {
        Ok(channel) => channel,
        Err(error) => vstd::pervasive::unreached(),
    };
    assert(channel.records() =~= cell_records(1, 0));
    let (writer, reader) = if controlled {
        channel.split(1)
    } else {
        (JournalWriter::new(1), JournalReader::new(1))
    };
    let mut warm = EnqueueWork {
        channel,
        writer,
        reader,
        controlled,
        first: 1,
        checksum: 0,
        limit: Ghost(HALF_RING as nat),
    };
    warm_up(&mut warm, HALF_RING);
    assert(warm.channel.records() =~= cell_records(513, 0));
    let mut work = EnqueueWork {
        channel: warm.channel,
        writer: warm.writer,
        reader: warm.reader,
        controlled,
        first: 513,
        checksum: 0,
        limit: Ghost(samples as nat),
    };
    let taken = time_samples(&mut work, 0, samples);
    if controlled {
        let mut channel = work.channel;
        work.writer.close(&mut channel);
        work.reader.abandon(&mut channel);
    }
    (taken, work.checksum)
}

/// What the enqueue cell records.
pub open spec fn enqueue_suite(samples: usize) -> Seq<Cell> {
    if samples == 0 {
        Seq::empty()
    } else {
        seq![
            Cell {
                base: journal_base(
                    "journal_enqueue"@,
                    seq![("tif"@, ExtraView::Text("journal"@))],
                    folded(0, shifted_series(513), samples as nat) ^ spec_rotated(
                        samples as u64,
                        1,
                    ),
                ),
                samples: samples as nat,
                brief_rate: BRIEF_RATE,
            },
        ]
    }
}

/// Times the matching-side enqueue: the checksum is stamped and the record goes
/// into the ring.
pub fn journal_benchmark(samples: usize, out: &mut Vec<BenchRecord>)
    requires
        samples + HALF_RING + 2 < u64::MAX,
    ensures
        extended(old(out)@, final(out)@, enqueue_suite(samples)),
{
    let ghost before = out@;
    proof {
        lemma_extended_none(before);
    }
    if samples == 0 {
        return;
    }
    let (taken, checksum) = enqueue_cell(false, samples);
    let mut params: Vec<(&'static str, Extra)> = Vec::new();
    params.push(("tif", Extra::Text("journal")));
    assert(params_of(params@) =~= seq![("tif"@, ExtraView::Text("journal"@))]);
    fill_record(out, "journal_enqueue", params, checksum ^ rotated(samples as u64, 1), taken);
    proof {
        let cells = enqueue_suite(samples);
        lemma_extended_one(before, before, out@, Seq::empty(), cells[0]);
        assert(Seq::empty().push(cells[0]) =~= cells);
    }
}

/// Fills the ring with records from sequence one.
fn prefill(channel: &mut JournalChannel, writer: &mut JournalWriter)
    requires
        old(channel).wf(),
        old(channel).records().len() == 0,
        old(writer)@.next_sequence == 1,
    ensures
        final(channel).wf(),
        final(channel).records() == cell_records(1, 1024),
        final(channel).status() == old(channel).status(),
        final(writer)@.next_sequence == 1025,
        final(writer)@.controlled == old(writer)@.controlled,
{
    let bytes = payload_bytes();
    let mut done: u64 = 0;
    assert(channel.records() =~= cell_records(1, 0));
    while done < 1024
        invariant
            done <= 1024,
            bytes@ == payload(),
            channel.wf(),
            channel.records() == cell_records(1, done as nat),
            channel.status() == old(channel).status(),
            writer@.next_sequence == 1 + done,
            writer@.controlled == old(writer)@.controlled,
        decreases 1024 - done,
    {
        let ghost before = channel.records();
        let outcome = writer.enqueue(channel, bytes.as_slice());
        assert(outcome is Ok);
        assert(before.push(cell_record(1 + done)) =~= cell_records(1, (done + 1) as nat));
        done = done + 1;
    }
}

/// Enqueues into a full ring.
pub struct SaturationWork {
    channel: JournalChannel,
    writer: JournalWriter,
    refused: u64,
}

impl Workload for SaturationWork {
    type Job = ();

    closed spec fn job(&self) -> () {
        ()
    }

    closed spec fn limit(&self) -> nat {
        u64::MAX as nat
    }

    closed spec fn ready(&self, done: nat) -> bool {
        &&& self.channel.wf()
        &&& self.channel.records().len() == 1024
        &&& self.writer@.next_sequence == 1025
        &&& self.refused == done
    }

    closed spec fn ran(&self, done: nat) -> bool {
        self.ready(done + 1)
    }

    fn run(&mut self, index: u64) {
        let bytes = payload_bytes();
        let refused = self.writer.enqueue(&mut self.channel, bytes.as_slice()).is_err();
        if refused {
            self.refused = self.refused + 1;
        }
    }

    fn restore(&mut self, index: u64) {
    }
}

/// What the saturation cell records.
pub open spec fn saturation_cell(samples: usize) -> Cell {
    Cell {
        base: journal_base(
            "journal_saturation_refusal"@,
            seq![
                ("capacity"@, ExtraView::U64(1024)),
                ("occupancy"@, ExtraView::U64(1024)),
                ("backpressure_events"@, ExtraView::U64(samples as u64)),
            ],
            samples as u64,
        ),
        samples: samples as nat,
        brief_rate: BRIEF_RATE,
    }
}

/// Times the refusal of a full ring.
pub fn saturation_benchmark(samples: usize, out: &mut Vec<BenchRecord>)
    requires
        0 < samples,
    ensures
        appended(
            old(out)@,
            final(out)@,
            saturation_cell(samples),
        ),
{
    let mut channel = match JournalChannel::try_new() {
        Ok(channel) => channel,
        Err(error) => vstd::pervasive::unreached(),
    };
    let mut writer = JournalWriter::new(1);
    prefill(&mut channel, &mut writer);
    let mut warm = SaturationWork { channel, writer, refused: 0 };
    warm_up(&mut warm, 1);
    let mut work = SaturationWork { channel: warm.channel, writer: warm.writer, refused: 0 };
    let taken = time_samples(&mut work, 0, samples);
    let mut params: Vec<(&'static str, Extra)> = Vec::new();
    params.push(("capacity", Extra::U64(1024)));
    params.push(("occupancy", Extra::U64(1024)));
    params.push(("backpressure_events", Extra::U64(work.refused)));
    assert(params_of(params@) =~= saturation_cell(samples).base.params);
    fill_record(out, "journal_saturation_refusal", params, work.refused, taken);
}

/// Scans one journal.
pub struct ScanWork {
    bytes: Vec<u8>,
    digest: u64,
}

/// The records of a journal are in order.
proof fn lemma_cell_records_in_order(first: u64, count: nat)
    requires
        first + count <= u64::MAX,
    ensures
        in_order(first, cell_records(first as int, count)),
{
    let records = cell_records(first as int, count);
    assert forall|i: int| 0 <= i < records.len() implies {
        &&& (#[trigger] records[i]).payload.len() == MAX_PAYLOAD
        &&& records[i].verified()
        &&& records[i].sequence.0 == first + i
    } by {
        lemma_cell_record(first + i);
    }
}

impl Workload for ScanWork {
    type Job = ();

    closed spec fn job(&self) -> () {
        ()
    }

    closed spec fn limit(&self) -> nat {
        u64::MAX as nat
    }

    closed spec fn ready(&self, done: nat) -> bool {
        &&& self.bytes@ == disk(cell_records(1, 512))
        &&& self.digest == folded(0, constant(513), done)
    }

    closed spec fn ran(&self, done: nat) -> bool {
        self.ready(done + 1)
    }

    fn run(&mut self, index: u64) {
        proof {
            lemma_cell_records_in_order(1, 512);
            law_recover_counts_records(1, cell_records(1, 512));
        }
        match recover(self.bytes.as_slice(), 1) {
            Ok(recovery) => {
                self.digest = self.digest ^ recovery.next_sequence;
            },
            Err(error) => vstd::pervasive::unreached(),
        }
    }

    fn restore(&mut self, index: u64) {
    }
}

/// The bytes of a journal of 512 records.
fn scan_fixture() -> (bytes: Vec<u8>)
    ensures
        bytes@ == disk(cell_records(1, 512)),
{
    let mut bytes: Vec<u8> = Vec::new();
    let mut done: u64 = 0;
    let ghost all = cell_records(1, 512);
    assert(all.take(0) =~= Seq::<RecordView>::empty());
    while done < 512
        invariant
            done <= 512,
            all == cell_records(1, 512),
            bytes@ == disk(all.take(done as int)),
        decreases 512 - done,
    {
        let form = sealed(done + 1).encode();
        let ghost before = bytes@;
        let mut index: usize = 0;
        while index < RECORD_SIZE
            invariant
                index <= RECORD_SIZE,
                bytes@ == before + form@.take(index as int),
            decreases RECORD_SIZE - index,
        {
            bytes.push(form[index]);
            assert(form@.take(index + 1) =~= form@.take(index as int).push(form@[index as int]));
            index = index + 1;
        }
        proof {
            assert(form@.take(RECORD_SIZE as int) =~= form@);
            lemma_disk_step(all, done as int);
        }
        done = done + 1;
    }
    assert(all.take(512) =~= all);
    bytes
}

/// What the scan cell records.
pub open spec fn scan_cell(samples: usize, cpu_crc: Seq<char>) -> Cell {
    Cell {
        base: journal_base(
            "journal_recovery_scan"@,
            checksum_params("crc32c_selected"@, cpu_crc),
            folded(0, constant(513), samples as nat),
        ),
        samples: samples as nat,
        brief_rate: BRIEF_RATE,
    }
}

/// Times the scan of one record, over a journal of 512.
pub fn recovery_scan_benchmark(samples: usize, cpu_crc: &'static str, out: &mut Vec<BenchRecord>)
    requires
        0 < samples,
    ensures
        appended(
            old(out)@,
            final(out)@,
            scan_cell(samples, cpu_crc@),
        ),
{
    let mut warm = ScanWork { bytes: scan_fixture(), digest: 0 };
    warm_up(&mut warm, 1);
    let mut work = ScanWork { bytes: warm.bytes, digest: 0 };
    let taken = time_steps(&mut work, 0, samples, 512);
    push_journal_record(
        out,
        "journal_recovery_scan",
        "crc32c_selected",
        cpu_crc,
        work.digest,
        taken,
    );
}

/// A reader takes records in order, as many as a batch holds.
proof fn lemma_batch(reader: ReaderView, count: nat, limit: nat, from: nat)
    requires
        !reader.poisoned,
        reader.expected_sequence + count < u64::MAX,
        from <= limit,
        from <= count,
    ensures
        reader.run(cell_records(reader.expected_sequence as int, count), limit, from) == least(
            limit,
            count,
        ),
    decreases limit - from,
{
    let records = cell_records(reader.expected_sequence as int, count);
    if from < limit {
        if from < count {
            lemma_cell_record(reader.expected_sequence + from);
            assert(records.skip(from as int)[0] == cell_record(reader.expected_sequence + from));
            assert(reader.fault_after(records, from) is None);
            lemma_batch(reader, count, limit, from + 1);
        } else {
            assert(records.skip(from as int).len() == 0);
        }
    }
}

/// A batch of records in order has no fault, and leaves the rest.
proof fn lemma_batch_taken(reader: ReaderView, count: nat, limit: nat)
    requires
        !reader.poisoned,
        reader.expected_sequence + count < u64::MAX,
        limit <= count,
    ensures
        ({
            let records = cell_records(reader.expected_sequence as int, count);
            &&& reader.batch(records, limit) == limit
            &&& reader.batch_fault(records, limit) is None
            &&& reader.batch_rest(records, limit) == cell_records(
                reader.expected_sequence + limit,
                (count - limit) as nat,
            )
        }),
{
    let records = cell_records(reader.expected_sequence as int, count);
    lemma_batch(reader, count, limit, 0);
    assert(records.skip(limit as int) =~= cell_records(
        reader.expected_sequence + limit,
        (count - limit) as nat,
    ));
}

/// Drains batches of a full ring.
pub struct DrainWork<const BATCH: usize> {
    channel: JournalChannel,
    worker: PersistenceWorker<MemorySink, BATCH>,
    drained: u64,
    /// Records that were drained before the work began.
    skipped: Ghost<nat>,
    limit: Ghost<nat>,
    policy: Ghost<FlushPolicy>,
    controlled: Ghost<bool>,
}

/// What a drain cell is about.
pub struct DrainJob {
    pub skipped: nat,
    pub policy: FlushPolicy,
    pub controlled: bool,
}

impl<const BATCH: usize> DrainWork<BATCH> {
    spec fn taken(self, done: nat) -> nat {
        self.skipped@ + done * BATCH as nat
    }

    spec fn left(self, done: nat) -> Seq<RecordView> {
        cell_records(1 + self.taken(done) as int, (1024 - self.taken(done)) as nat)
    }
}

impl<const BATCH: usize> Workload for DrainWork<BATCH> {
    type Job = DrainJob;

    closed spec fn job(&self) -> DrainJob {
        DrainJob {
            skipped: self.skipped@,
            policy: self.policy@,
            controlled: self.controlled@,
        }
    }

    closed spec fn limit(&self) -> nat {
        self.limit@
    }

    closed spec fn ready(&self, done: nat) -> bool {
        &&& self.channel.wf()
        &&& self.worker.wf()
        &&& done <= self.limit@
        &&& self.taken(self.limit@) <= 1024
        &&& self.taken(done) <= 1024
        &&& !self.worker.poisoned()
        &&& !self.worker.reader().poisoned
        &&& !self.worker.reader().shutdown_complete
        &&& self.worker.reader().controlled == self.controlled@
        &&& self.worker.policy() == self.policy@
        &&& self.worker.reader().expected_sequence == 1 + self.taken(done)
        &&& self.worker.sink().reliable()
        &&& self.worker.sink().taken() == disk(cell_records(1, self.taken(done)))
        &&& self.channel.records() == self.left(done)
        &&& self.controlled@ ==> self.channel.status().producer_closed
        &&& self.drained == done * BATCH
    }

    closed spec fn ran(&self, done: nat) -> bool {
        self.ready(done + 1)
    }

    #[verifier::rlimit(30)]
    fn run(&mut self, index: u64) {
        let ghost done = index as nat;
        let ghost taken = self.taken(done);
        let ghost records = self.channel.records();
        proof {
            assert((done + 1) * BATCH == done * BATCH + BATCH) by (nonlinear_arith);
            assert((done + 1) * BATCH <= self.limit@ * BATCH) by (nonlinear_arith)
                requires
                    done + 1 <= self.limit@,
            ;
            lemma_batch_taken(self.worker.reader(), (1024 - taken) as nat, BATCH as nat);
            let all = cell_records(1, taken + BATCH as nat);
            crate::journal::worker::lemma_disk_split(all, taken as int);
            assert(all.take(taken as int) =~= cell_records(1, taken));
            assert(all.skip(taken as int) =~= records.take(BATCH as int));
        }
        match self.worker.drain_batch(&mut self.channel) {
            Ok(count) => {
                self.drained = self.drained + count as u64;
            },
            Err(error) => vstd::pervasive::unreached(),
        }
    }

    fn restore(&mut self, index: u64) {
    }
}

/// How many batches are timed behind the first.
pub open spec fn batches(batch: usize, samples: usize) -> nat {
    least(samples as nat, ((1024 - batch) / batch as int) as nat)
}

/// Drains one batch untimed and the next ones timed. It returns the samples, the
/// records drained, and what is left to close.
fn drain_cell<const BATCH: usize>(
    channel: JournalChannel,
    worker: PersistenceWorker<MemorySink, BATCH>,
    samples: usize,
) -> (result: (Vec<u64>, DrainWork<BATCH>))
    requires
        0 < BATCH <= 512,
        0 < samples,
        channel.wf(),
        worker.wf(),
        channel.records() == cell_records(1, 1024),
        !worker.poisoned(),
        !worker.reader().poisoned,
        !worker.reader().shutdown_complete,
        worker.reader().expected_sequence == 1,
        worker.reader().controlled ==> channel.status().producer_closed,
        worker.sink().reliable(),
        worker.sink().taken().len() == 0,
    ensures
        result.0@.len() == batches(BATCH, samples),
        result.1.ready(batches(BATCH, samples)),
        result.1.job() == (DrainJob {
            skipped: BATCH as nat,
            policy: worker.policy(),
            controlled: worker.reader().controlled,
        }),
        0 < batches(BATCH, samples),
{
    let ghost policy = worker.policy();
    let ghost controlled = worker.reader().controlled;
    assert(cell_records(1, 0) =~= Seq::<RecordView>::empty());
    assert(worker.sink().taken() =~= disk(cell_records(1, 0)));
    let mut first: DrainWork<BATCH> = DrainWork {
        channel,
        worker,
        drained: 0,
        skipped: Ghost(0),
        limit: Ghost(1),
        policy: Ghost(policy),
        controlled: Ghost(controlled),
    };
    repeat(&mut first, 0, 1);
    let occupancy: usize = 1024 - BATCH;
    let fitting: usize = occupancy / BATCH;
    let count: usize = if samples < fitting {
        samples
    } else {
        fitting
    };
    proof {
        assert(fitting >= 1 && fitting * BATCH <= occupancy) by (nonlinear_arith)
            requires
                fitting == occupancy / BATCH,
                0 < BATCH <= occupancy,
        ;
        assert(count * BATCH <= fitting * BATCH) by (nonlinear_arith)
            requires
                count <= fitting,
        ;
    }
    let mut work: DrainWork<BATCH> = DrainWork {
        channel: first.channel,
        worker: first.worker,
        drained: 0,
        skipped: Ghost(BATCH as nat),
        limit: Ghost(count as nat),
        policy: Ghost(policy),
        controlled: Ghost(controlled),
    };
    let taken = time_steps(&mut work, 0, count, BATCH as u128);
    (taken, work)
}

/// A full ring with a closed writer, and its reader.
fn full_ring(controlled: bool) -> (ring: (JournalChannel, JournalReader))
    ensures
        ring.0.wf(),
        ring.0.records() == cell_records(1, 1024),
        controlled ==> ring.0.status() == (JournalStatus {
            producer_closed: true,
            ..JournalStatus::initial(1)
        }),
        ring.1@ == (ReaderView {
            expected_sequence: 1,
            poisoned: false,
            controlled,
            shutdown_complete: false,
        }),
{
    let mut channel = match JournalChannel::try_new() {
        Ok(channel) => channel,
        Err(error) => vstd::pervasive::unreached(),
    };
    let (mut writer, reader) = if controlled {
        channel.split(1)
    } else {
        (JournalWriter::new(1), JournalReader::new(1))
    };
    prefill(&mut channel, &mut writer);
    writer.close(&mut channel);
    (channel, reader)
}

/// What a drain cell without status records.
pub open spec fn drain_cell_record<const BATCH: usize>(samples: usize) -> Cell {
    Cell {
        base: journal_base(
            "journal_persistence_memory"@,
            seq![
                ("batch"@, ExtraView::U64(BATCH as u64)),
                ("occupancy"@, ExtraView::U64((1024 - BATCH) as u64)),
                ("backpressure_events"@, ExtraView::U64(0)),
            ],
            (batches(BATCH, samples) * BATCH) as u64,
        ),
        samples: batches(BATCH, samples),
        brief_rate: BRIEF_RATE,
    }
}

/// Times the drain of one record into memory, in batches.
pub fn persistence_batch_benchmark<const BATCH: usize>(samples: usize, out: &mut Vec<BenchRecord>)
    requires
        0 < BATCH <= 512,
        0 < samples,
    ensures
        appended(
            old(out)@,
            final(out)@,
            drain_cell_record::<BATCH>(samples),
        ),
{
    let (mut channel, reader) = full_ring(false);
    let worker: PersistenceWorker<MemorySink, BATCH> = match PersistenceWorker::new(
        reader,
        MemorySink::new(),
        FlushPolicy::OnShutdown,
        &mut channel,
    ) {
        Ok(worker) => worker,
        Err(error) => vstd::pervasive::unreached(),
    };
    let (taken, work) = drain_cell(channel, worker, samples);
    let mut params: Vec<(&'static str, Extra)> = Vec::new();
    params.push(("batch", Extra::U64(BATCH as u64)));
    params.push(("occupancy", Extra::U64((1024 - BATCH) as u64)));
    params.push(("backpressure_events", Extra::U64(0)));
    assert(params_of(params@) =~= drain_cell_record::<BATCH>(samples).base.params);
    fill_record(out, "journal_persistence_memory", params, work.drained, taken);
}

/// The name of a flush policy.
pub open spec fn policy_name(policy: FlushPolicy) -> Seq<char> {
    match policy {
        FlushPolicy::EveryBatch => "every_batch"@,
        FlushPolicy::OnShutdown => "on_shutdown"@,
    }
}

/// What a drain cell with status records.
pub open spec fn controlled_cell<const BATCH: usize>(samples: usize, policy: FlushPolicy) -> Cell {
    Cell {
        base: journal_base(
            "controlled_journal_persistence_memory"@,
            seq![
                ("batch"@, ExtraView::U64(BATCH as u64)),
                ("occupancy"@, ExtraView::U64((1024 - BATCH) as u64)),
                ("flush_policy"@, ExtraView::Text(policy_name(policy))),
            ],
            (batches(BATCH, samples) * BATCH) as u64,
        ),
        samples: batches(BATCH, samples),
        brief_rate: BRIEF_RATE,
    }
}

/// Times the drain of one record of a controlled channel into memory, in batches,
/// and shuts the channel down.
pub fn controlled_persistence<const BATCH: usize>(
    samples: usize,
    policy: FlushPolicy,
    out: &mut Vec<BenchRecord>,
)
    requires
        0 < BATCH <= 512,
        0 < samples,
    ensures
        appended(
            old(out)@,
            final(out)@,
            controlled_cell::<BATCH>(samples, policy),
        ),
{
    let (mut channel, reader) = full_ring(true);
    let worker: PersistenceWorker<MemorySink, BATCH> = match PersistenceWorker::new(
        reader,
        MemorySink::new(),
        policy,
        &mut channel,
    ) {
        Ok(worker) => worker,
        Err(error) => vstd::pervasive::unreached(),
    };
    let (taken, work) = drain_cell(channel, worker, samples);
    let ghost done = batches(BATCH, samples);
    let ghost drained = work.taken(done);
    let drained_total: u64 = work.drained;
    let mut channel = work.channel;
    let mut worker = work.worker;
    proof {
        let reader = worker.reader();
        let left = (1024 - drained) as nat;
        lemma_batch(reader, left, left, 0);
    }
    let closed = worker.shutdown(&mut channel);
    proof {
        assert(closed is Ok);
        let all = cell_records(1, 1024);
        crate::journal::worker::lemma_disk_split(all, drained as int);
        assert(all.take(drained as int) =~= cell_records(1, drained));
        assert(all.skip(drained as int) =~= cell_records(1 + drained as int, (1024 - drained) as nat));
    }
    let sink = worker.into_sink(&mut channel);
    assert(sink is Ok && sink->Ok_0.taken() == disk(cell_records(1, 1024)));
    let name = match policy {
        FlushPolicy::EveryBatch => "every_batch",
        FlushPolicy::OnShutdown => "on_shutdown",
    };
    let mut params: Vec<(&'static str, Extra)> = Vec::new();
    params.push(("batch", Extra::U64(BATCH as u64)));
    params.push(("occupancy", Extra::U64((1024 - BATCH) as u64)));
    params.push(("flush_policy", Extra::Text(name)));
    assert(params_of(params@) =~= controlled_cell::<BATCH>(samples, policy).base.params);
    fill_record(out, "controlled_journal_persistence_memory", params, drained_total, taken);
}

/// What the drain cells record.
pub open spec fn drain_suite(samples: usize, cpu_crc: Seq<char>) -> Seq<Cell> {
    if samples == 0 {
        Seq::empty()
    } else {
        seq![
            drain_cell_record::<1>(samples),
            drain_cell_record::<8>(samples),
            drain_cell_record::<32>(samples),
            scan_cell(samples, cpu_crc),
            saturation_cell(samples),
        ]
    }
}

/// Times the persistence side: drains of a full ring, the recovery scan, and the
/// refusal of a full ring.
pub fn journal_drain_benchmark(samples: usize, cpu_crc: &'static str, out: &mut Vec<BenchRecord>)
    ensures
        extended(old(out)@, final(out)@, drain_suite(samples, cpu_crc@)),
{
    let ghost before = out@;
    if samples == 0 {
        proof {
            lemma_extended_none(before);
        }
        return;
    }
    persistence_batch_benchmark::<1>(samples, out);
    let ghost first = out@;
    persistence_batch_benchmark::<8>(samples, out);
    let ghost second = out@;
    persistence_batch_benchmark::<32>(samples, out);
    let ghost third = out@;
    recovery_scan_benchmark(samples, cpu_crc, out);
    let ghost fourth = out@;
    saturation_benchmark(samples, out);
    proof {
        let cells = drain_suite(samples, cpu_crc@);
        let none = Seq::<Cell>::empty();
        lemma_extended_none(before);
        lemma_extended_one(before, before, first, none, cells[0]);
        let one = none.push(cells[0]);
        lemma_extended_one(before, first, second, one, cells[1]);
        let two = one.push(cells[1]);
        lemma_extended_one(before, second, third, two, cells[2]);
        let three = two.push(cells[2]);
        lemma_extended_one(before, third, fourth, three, cells[3]);
        let four = three.push(cells[3]);
        lemma_extended_one(before, fourth, out@, four, cells[4]);
        assert(four.push(cells[4]) =~= cells);
    }
}

/// What the enqueue cell of a controlled channel records.
pub open spec fn controlled_enqueue_cell(samples: usize) -> Cell {
    Cell {
        base: journal_base(
            "controlled_journal_enqueue"@,
            seq![("capacity"@, ExtraView::U64(1024))],
            folded(0, shifted_series(513), samples as nat),
        ),
        samples: samples as nat,
        brief_rate: BRIEF_RATE,
    }
}

/// Times the enqueue of one record into a controlled channel.
pub fn controlled_enqueue(samples: usize, out: &mut Vec<BenchRecord>)
    requires
        0 < samples,
        samples + HALF_RING + 2 < u64::MAX,
    ensures
        appended(
            old(out)@,
            final(out)@,
            controlled_enqueue_cell(samples),
        ),
{
    let (taken, checksum) = enqueue_cell(true, samples);
    let mut params: Vec<(&'static str, Extra)> = Vec::new();
    params.push(("capacity", Extra::U64(1024)));
    assert(params_of(params@) =~= seq![("capacity"@, ExtraView::U64(1024))]);
    fill_record(out, "controlled_journal_enqueue", params, checksum, taken);
}

/// What the cells of controlled channels record.
pub open spec fn controlled_suite(samples: usize) -> Seq<Cell> {
    if samples == 0 {
        Seq::empty()
    } else {
        seq![
            controlled_enqueue_cell(samples),
            controlled_cell::<1>(samples, FlushPolicy::OnShutdown),
            controlled_cell::<8>(samples, FlushPolicy::OnShutdown),
            controlled_cell::<32>(samples, FlushPolicy::OnShutdown),
            controlled_cell::<1>(samples, FlushPolicy::EveryBatch),
            controlled_cell::<8>(samples, FlushPolicy::EveryBatch),
            controlled_cell::<32>(samples, FlushPolicy::EveryBatch),
        ]
    }
}

/// Times controlled channels: the enqueue, and persistence under both flush
/// policies.
pub fn controlled_journal_benchmarks(samples: usize, out: &mut Vec<BenchRecord>)
    requires
        samples + HALF_RING + 2 < u64::MAX,
    ensures
        extended(old(out)@, final(out)@, controlled_suite(samples)),
{
    let ghost before = out@;
    if samples == 0 {
        proof {
            lemma_extended_none(before);
        }
        return;
    }
    controlled_enqueue(samples, out);
    let ghost first = out@;
    controlled_persistence::<1>(samples, FlushPolicy::OnShutdown, out);
    let ghost second = out@;
    controlled_persistence::<8>(samples, FlushPolicy::OnShutdown, out);
    let ghost third = out@;
    controlled_persistence::<32>(samples, FlushPolicy::OnShutdown, out);
    let ghost fourth = out@;
    controlled_persistence::<1>(samples, FlushPolicy::EveryBatch, out);
    let ghost fifth = out@;
    controlled_persistence::<8>(samples, FlushPolicy::EveryBatch, out);
    let ghost sixth = out@;
    controlled_persistence::<32>(samples, FlushPolicy::EveryBatch, out);
    proof {
        let cells = controlled_suite(samples);
        let none = Seq::<Cell>::empty();
        lemma_extended_none(before);
        lemma_extended_one(before, before, first, none, cells[0]);
        let one = none.push(cells[0]);
        lemma_extended_one(before, first, second, one, cells[1]);
        let two = one.push(cells[1]);
        lemma_extended_one(before, second, third, two, cells[2]);
        let three = two.push(cells[2]);
        lemma_extended_one(before, third, fourth, three, cells[3]);
        let four = three.push(cells[3]);
        lemma_extended_one(before, fourth, fifth, four, cells[4]);
        let five = four.push(cells[4]);
        lemma_extended_one(before, fifth, sixth, five, cells[5]);
        let six = five.push(cells[5]);
        lemma_extended_one(before, sixth, out@, six, cells[6]);
        assert(six.push(cells[6]) =~= cells);
    }
}

} // verus!
