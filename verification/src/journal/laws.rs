//! What a journal gives back of what was put in.

use vstd::prelude::*;

use crate::journal::channel::{
    given_up, goes_over, poisoned_if, JournalStatus, ReaderView, WriterView,
};
use crate::journal::record::{
    decode_fault, law_decode_undoes_encode, law_fields_of_encoded, RecordView,
};
use crate::journal::recovery::{in_order, law_recover_counts_records, Recovery, RecoveryError};
use crate::journal::sink::{
    lemma_progress_bounds, progress, DurableSink, SinkCall, SinkProgress, SinkTask,
};
use crate::journal::worker::{
    batch_tasks, disk, lemma_disk_split, lemma_disk_step, stored, FlushPolicy, PersistError,
    PersistenceWorker,
};
use crate::journal::{MAX_PAYLOAD, RECORD_SIZE};
use crate::types::SequenceNumber;

verus! {

/// The records carry the payloads, numbered from `first` on.
pub open spec fn carry(first: u64, records: Seq<RecordView>, payloads: Seq<Seq<u8>>) -> bool {
    &&& records.len() == payloads.len()
    &&& first + records.len() <= u64::MAX
    &&& forall|i: int|
        0 <= i < records.len() ==> {
            &&& (#[trigger] payloads[i]).len() <= MAX_PAYLOAD
            &&& records[i] == RecordView::sealed(SequenceNumber((first + i) as u64), payloads[i])
        }
}

/// A sealed record verifies, and carries what was put into it.
pub proof fn lemma_sealed(sequence: SequenceNumber, payload: Seq<u8>)
    requires
        payload.len() <= MAX_PAYLOAD,
    ensures
        RecordView::sealed(sequence, payload).payload.len() == MAX_PAYLOAD,
        RecordView::sealed(sequence, payload).verified(),
        RecordView::sealed(sequence, payload).content() == payload,
{
    let record = RecordView::sealed(sequence, payload);
    assert(record.checked_bytes() == RecordView::blank(sequence, payload).checked_bytes());
    assert(record.content() =~= payload);
}

/// A writer adds one payload behind those that the records carry.
pub proof fn law_enqueue_adds_one_payload(
    first: u64,
    records: Seq<RecordView>,
    payloads: Seq<Seq<u8>>,
    writer: WriterView,
    queued: nat,
    payload: Seq<u8>,
)
    requires
        carry(first, records, payloads),
        writer.next_sequence == first + records.len(),
        writer.refusal(queued, payload) is None,
    ensures
        carry(
            first,
            records.push(RecordView::sealed(SequenceNumber(writer.next_sequence), payload)),
            payloads.push(payload),
        ),
{
}

/// A reader gives every payload back, in order and under its own sequence.
pub proof fn law_reader_gives_payloads_back(
    reader: ReaderView,
    records: Seq<RecordView>,
    payloads: Seq<Seq<u8>>,
    i: int,
)
    requires
        !reader.poisoned,
        carry(reader.expected_sequence, records, payloads),
        0 <= i < records.len(),
    ensures
        reader.fault_after(records, i as nat) is None,
        records[i].sequence.0 == reader.expected_sequence + i,
        records[i].content() == payloads[i],
{
    assert(payloads[i].len() <= MAX_PAYLOAD);
    lemma_sealed(SequenceNumber((reader.expected_sequence + i) as u64), payloads[i]);
    assert(records.skip(i)[0] == records[i]);
}

/// Every batch of a reader is full, or takes all that there is.
pub proof fn law_batches_skip_nothing(
    reader: ReaderView,
    records: Seq<RecordView>,
    payloads: Seq<Seq<u8>>,
    limit: nat,
)
    requires
        !reader.poisoned,
        carry(reader.expected_sequence, records, payloads),
    ensures
        reader.batch(records, limit) == if limit < records.len() {
            limit
        } else {
            records.len()
        },
        reader.batch_fault(records, limit) is None,
{
    lemma_run_reaches(reader, records, payloads, limit, 0);
    let count = reader.batch(records, limit);
    if count < records.len() {
        law_reader_gives_payloads_back(reader, records, payloads, count as int);
    } else {
        assert(records.skip(count as int).len() == 0);
    }
}

proof fn lemma_run_reaches(
    reader: ReaderView,
    records: Seq<RecordView>,
    payloads: Seq<Seq<u8>>,
    limit: nat,
    from: nat,
)
    requires
        !reader.poisoned,
        carry(reader.expected_sequence, records, payloads),
        from <= limit,
        from <= records.len(),
    ensures
        reader.run(records, limit, from) == if limit < records.len() {
            limit
        } else {
            records.len()
        },
    decreases limit - from,
{
    if from < limit && from < records.len() {
        law_reader_gives_payloads_back(reader, records, payloads, from as int);
        lemma_run_reaches(reader, records, payloads, limit, from + 1);
    } else if from < limit {
        assert(records.skip(from as int).len() == 0);
    }
}

/// Records that carry payloads are in order.
proof fn lemma_carry_in_order(first: u64, records: Seq<RecordView>, payloads: Seq<Seq<u8>>)
    requires
        carry(first, records, payloads),
    ensures
        in_order(first, records),
{
    assert forall|i: int| 0 <= i < records.len() implies {
        &&& (#[trigger] records[i]).payload.len() == MAX_PAYLOAD
        &&& records[i].verified()
        &&& records[i].sequence.0 == first + i
    } by {
        assert(payloads[i].len() <= MAX_PAYLOAD);
        lemma_sealed(SequenceNumber((first + i) as u64), payloads[i]);
    }
}

/// The disk forms of records stand one behind the other, each in its own place.
proof fn lemma_disk_places(records: Seq<RecordView>, i: int)
    requires
        0 <= i <= records.len(),
        forall|k: int|
            0 <= k < records.len() ==> (#[trigger] records[k]).payload.len() == MAX_PAYLOAD,
    ensures
        disk(records.take(i)).len() == i * RECORD_SIZE,
    decreases i,
{
    if i == 0 {
        assert(records.take(0) =~= Seq::<RecordView>::empty());
    } else {
        lemma_disk_places(records, i - 1);
        lemma_disk_step(records, i - 1);
        law_fields_of_encoded(records[i - 1]);
        assert(i * RECORD_SIZE == (i - 1) * RECORD_SIZE + RECORD_SIZE) by (nonlinear_arith);
    }
}

/// What was enqueued and persisted is recovered: a scan of the disk forms counts
/// every record, and the disk form at each place decodes to its payload.
pub proof fn law_journal_keeps_payloads(
    first: u64,
    records: Seq<RecordView>,
    payloads: Seq<Seq<u8>>,
    i: int,
)
    requires
        carry(first, records, payloads),
        0 <= i < records.len(),
    ensures
        Recovery::spec_start(first).scanned(disk(records)) == Ok::<_, RecoveryError>(
            Recovery {
                records: records.len() as u64,
                next_sequence: (first + records.len()) as u64,
            },
        ),
        ({
            let form = disk(records).subrange(i * RECORD_SIZE, (i + 1) * RECORD_SIZE);
            &&& form.len() == RECORD_SIZE
            &&& decode_fault(form) is None
            &&& RecordView::fields(form).sequence.0 == first + i
            &&& RecordView::fields(form).content() == payloads[i]
        }),
{
    lemma_carry_in_order(first, records, payloads);
    law_recover_counts_records(first, records);
    lemma_disk_places(records, i);
    lemma_disk_places(records, i + 1);
    lemma_disk_step(records, i);
    lemma_disk_split(records, i + 1);
    assert(payloads[i].len() <= MAX_PAYLOAD);
    lemma_sealed(SequenceNumber((first + i) as u64), payloads[i]);
    law_decode_undoes_encode(records[i]);
    assert(i * RECORD_SIZE + RECORD_SIZE == (i + 1) * RECORD_SIZE) by (nonlinear_arith);
    assert(disk(records).subrange(i * RECORD_SIZE, (i + 1) * RECORD_SIZE)
        =~= records[i].encoded());
}

/// The status of one sequence domain, read again and again: the watermarks never
/// fall, nothing is durable that is not written, a poisoned, closed or complete
/// status stays so, and completion means that the producer has closed and both
/// watermarks have met. `history` holds the status and the number of queued
/// records at each reading, where every change between two readings is one that
/// [`goes_over`] admits.
pub proof fn law_status_never_falls_back(
    first: u64,
    history: Seq<(JournalStatus, nat)>,
    i: int,
    j: int,
)
    requires
        0 <= i <= j < history.len(),
        history[0].0 == JournalStatus::initial(first),
        forall|k: int|
            0 <= k < history.len() - 1 ==> goes_over(
                (#[trigger] history[k]).0,
                history[k].1,
                history[k + 1].0,
                history[k + 1].1,
            ),
    ensures
        history[j].0.follows(history[i].0),
        history[i].0.sound(first, history[i].1),
        history[j].0.sound(first, history[j].1),
    decreases j,
{
    if j == 0 {
        assert(history[0].0.sound(first, history[0].1));
    } else {
        assert(goes_over(history[j - 1].0, history[j - 1].1, history[j].0, history[j].1));
        if i < j {
            law_status_never_falls_back(first, history, i, j - 1);
        } else {
            law_status_never_falls_back(first, history, j - 1, j - 1);
        }
    }
}

/// Every change that an end of a channel makes is one that the status admits: a
/// payload enqueued before the producer has closed, the closing, a record read or
/// refused, and a reader given up. What a worker does says so itself.
pub proof fn law_channel_steps_are_admitted(status: JournalStatus, queued: nat, failed: bool)
    ensures
        !status.producer_closed ==> goes_over(status, queued, status, queued + 1),
        goes_over(status, queued, JournalStatus { producer_closed: true, ..status }, queued),
        goes_over(status, queued, poisoned_if(failed, status), queued),
        queued > 0 ==> goes_over(
            status,
            queued,
            poisoned_if(failed, status),
            (queued - 1) as nat,
        ),
{
}

/// A worker that has failed stays failed: the status of its channel is poisoned,
/// and a shutdown is answered without a call of the sink.
pub proof fn law_failed_worker_stays_failed<S: DurableSink, const BATCH: usize>(
    worker: PersistenceWorker<S, BATCH>,
    status: JournalStatus,
)
    requires
        worker.poisoned(),
        worker.in_step(status),
    ensures
        worker.reader().controlled ==> status.poisoned,
        worker.shutdown_answer(status) == Some(Err::<(), _>(PersistError::Poisoned)),
{
}

/// A batch that fails in the sink leaves the durable watermark alone, and moves the
/// other only where every record was written and the flush alone has failed.
pub proof fn law_failed_batch_keeps_watermarks<S: DurableSink, const BATCH: usize>(
    before: PersistenceWorker<S, BATCH>,
    after: PersistenceWorker<S, BATCH>,
    records: Seq<RecordView>,
    old_status: JournalStatus,
    new_status: JournalStatus,
    outcome: Result<usize, PersistError>,
)
    requires
        stored(before, after, records, old_status, new_status, outcome),
        outcome is Err,
    ensures
        after.poisoned(),
        before.reader().controlled ==> new_status.poisoned,
        new_status.next_durable_sequence == old_status.next_durable_sequence,
        new_status.next_written_sequence != old_status.next_written_sequence ==> {
            &&& before.policy() == FlushPolicy::EveryBatch
            &&& after.sink().taken() == before.sink().taken() + disk(records)
            &&& after.sink().calls().last() is Flush
        },
{
    let tasks = batch_tasks(records, before.policy() == FlushPolicy::EveryBatch);
    let calls = after.sink().calls().skip(before.sink().calls().len() as int);
    lemma_progress_bounds(tasks, calls);
    lemma_last_left(tasks, calls);
    assert(calls.len() > 0);
    assert(calls.last() == after.sink().calls().last());
}

/// The task that fails is the one that the last call was for.
proof fn lemma_last_left(tasks: Seq<SinkTask>, calls: Seq<SinkCall>)
    ensures
        match progress(tasks, calls) {
            SinkProgress::Left(left) => left.len() > 0 && tasks.len() > 0 && tasks.last() is Flush
                ==> left.last() is Flush,
            SinkProgress::Stopped { left, .. } => {
                &&& calls.len() > 0
                &&& left.len() > 0
                &&& (left[0] is Flush <==> calls.last() is Flush)
                &&& tasks.len() > 0 && tasks.last() is Flush ==> left.last() is Flush
            },
            SinkProgress::Astray => true,
        },
    decreases calls.len(),
{
    if calls.len() > 0 {
        lemma_last_left(tasks, calls.drop_last());
        lemma_progress_bounds(tasks, calls.drop_last());
    }
}

/// When a status says that it is poisoned: not at first; once a record that a
/// controlled reader reads is not valid; and once such a reader is given up, alone
/// or with its worker, unless its shutdown is complete. Giving a reader up behind a
/// complete shutdown changes nothing.
pub proof fn law_poisoned_by_faults_and_giving_up(
    first: u64,
    reader: ReaderView,
    records: Seq<RecordView>,
    status: JournalStatus,
)
    requires
        reader.controlled,
    ensures
        !JournalStatus::initial(first).poisoned,
        reader.fails(records) ==> poisoned_if(
            reader.controlled && reader.fails(records),
            status,
        ).poisoned,
        !reader.shutdown_complete ==> given_up(reader, status).poisoned,
        reader.shutdown_complete ==> given_up(reader, status) == status,
        given_up(reader, status).follows(status),
{
}

/// Of two readings of one status, the later has no smaller watermark, and takes nothing
/// back that the earlier said; at any reading nothing is durable that is not written,
/// and a complete shutdown has left nothing behind.
pub proof fn law_watermarks_never_fall(
    first: u64,
    history: Seq<(JournalStatus, nat)>,
    i: int,
    j: int,
)
    requires
        0 <= i <= j < history.len(),
        history[0].0 == JournalStatus::initial(first),
        forall|k: int|
            0 <= k < history.len() - 1 ==> goes_over(
                (#[trigger] history[k]).0,
                history[k].1,
                history[k + 1].0,
                history[k + 1].1,
            ),
    ensures
        ({
            let earlier = history[i].0;
            let (later, queued) = history[j];
            &&& history[0].0.next_written_sequence == first
            &&& history[0].0.next_durable_sequence == first
            &&& !history[0].0.producer_closed
            &&& !history[0].0.poisoned
            &&& !history[0].0.shutdown_complete
            &&& earlier.next_written_sequence <= later.next_written_sequence
            &&& earlier.next_durable_sequence <= later.next_durable_sequence
            &&& earlier.producer_closed ==> later.producer_closed
            &&& earlier.poisoned ==> later.poisoned
            &&& earlier.shutdown_complete ==> later.shutdown_complete
            &&& first <= later.next_durable_sequence <= later.next_written_sequence
            &&& later.shutdown_complete ==> {
                &&& later.producer_closed
                &&& later.next_durable_sequence == later.next_written_sequence
                &&& queued == 0
            }
        }),
{
    law_status_never_falls_back(first, history, i, j);
}

} // verus!
