//! What a worker does when it is shut down.

use vstd::prelude::*;

use crate::journal::channel::JournalStatus;
use crate::journal::record::RecordView;
use crate::journal::sink::{DurableSink, SinkTask};
use crate::journal::worker::{
    batch_status, drain_status, drain_tasks, PersistError, PersistenceWorker,
};

verus! {

/// A shutdown is answered at once where there is nothing to drain: a failed worker
/// says so, whatever else holds; one that is shut down already is content; and the
/// producer has to be closed, which only a controlled channel can tell.
pub proof fn law_shutdown_answers<S: DurableSink, const BATCH: usize>(
    worker: PersistenceWorker<S, BATCH>,
    status: JournalStatus,
)
    ensures
        worker.shutdown_answer(status) == Some(Err::<(), _>(PersistError::Poisoned))
            <==> worker.poisoned(),
        worker.shutdown_answer(status) == Some(Ok::<_, PersistError>(())) <==> !worker.poisoned()
            && worker.reader().shutdown_complete,
        worker.shutdown_answer(status) == Some(Err::<(), _>(PersistError::ProducerOpen))
            <==> !worker.poisoned() && !worker.reader().shutdown_complete && !(
        worker.reader().controlled && status.producer_closed),
        worker.shutdown_answer(status) is None <==> !worker.poisoned()
            && !worker.reader().shutdown_complete && worker.reader().controlled
            && status.producer_closed,
{
}

proof fn lemma_next_batch(i: int, size: int)
    requires
        0 < size <= i,
    ensures
        i / size == (i - size) / size + 1,
        (i + 1) % size == (i + 1 - size) % size,
        0 <= (i - size) / size,
{
    vstd::arithmetic::div_mod::lemma_div_plus_one(i - size, size);
    vstd::arithmetic::div_mod::lemma_mod_add_multiples_vanish(i + 1 - size, size);
    vstd::arithmetic::div_mod::lemma_div_pos_is_pos(i - size, size);
}

/// Draining writes every record once and in order. Where batches are flushed, one
/// flush follows the last record of each, and only there.
pub proof fn law_drain_writes_every_record(
    records: Seq<RecordView>,
    size: nat,
    flushing: bool,
    i: int,
)
    requires
        0 < size,
        0 <= i < records.len(),
    ensures
        ({
            let tasks = drain_tasks(records, size, flushing);
            let at = i + if flushing {
                i / size as int
            } else {
                0
            };
            let ends = (i + 1) % size as int == 0 || i + 1 == records.len();
            &&& 0 <= at < tasks.len()
            &&& tasks[at] == SinkTask::Write(records[i].encoded())
            &&& flushing && ends ==> at + 1 < tasks.len() && tasks[at + 1] == SinkTask::Flush
            &&& i + 1 == records.len() ==> tasks.len() == at + if flushing {
                2int
            } else {
                1
            }
        }),
    decreases records.len(),
{
    let first = if records.len() < size {
        records.len() as int
    } else {
        size as int
    };
    let rest = records.skip(first);
    assert(records.take(first).len() == first);
    if i < first {
        vstd::arithmetic::div_mod::lemma_small_mod(i as nat, size);
        vstd::arithmetic::div_mod::lemma_basic_div(i, size as int);
        if i + 1 < first {
            vstd::arithmetic::div_mod::lemma_small_mod((i + 1) as nat, size);
        }
        if first == records.len() {
            assert(drain_tasks(rest, size, flushing).len() == 0);
        }
    } else {
        law_drain_writes_every_record(rest, size, flushing, i - first);
        lemma_next_batch(i, size as int);
        assert(rest[i - first] == records[i]);
    }
}

/// How many records the first `batches` batches hold.
pub open spec fn batched(batches: int, size: nat, count: nat) -> int {
    if batches * size < count {
        batches * size
    } else {
        count as int
    }
}

proof fn lemma_drain_keeps(
    status: JournalStatus,
    next: int,
    count: nat,
    size: nat,
    flushing: bool,
    tasks_done: int,
)
    ensures
        ({
            let after = drain_status(status, next, count, size, flushing, tasks_done);
            &&& after == JournalStatus {
                next_written_sequence: after.next_written_sequence,
                next_durable_sequence: after.next_durable_sequence,
                ..status
            }
            &&& !flushing ==> after.next_durable_sequence == status.next_durable_sequence
        }),
    decreases count,
{
    if count > 0 && size > 0 {
        let first = if count < size {
            count
        } else {
            size
        };
        let tasks = first + if flushing {
            1int
        } else {
            0int
        };
        lemma_drain_keeps(
            batch_status(true, status, (next + first) as u64, first, tasks),
            next + first,
            (count - first) as nat,
            size,
            flushing,
            tasks_done - tasks,
        );
    }
}

/// The watermarks while a controlled channel is drained. The written one moves behind
/// a batch once its last record is written, and not before. The durable one moves
/// there once the batch is flushed, and stays where no batch is flushed. Nothing else
/// of the status changes.
pub proof fn law_drain_moves_watermarks(
    status: JournalStatus,
    next: int,
    count: nat,
    size: nat,
    flushing: bool,
    tasks_done: int,
    batches: int,
)
    requires
        0 < size,
        0 <= next,
        next + count <= u64::MAX,
        0 <= batches,
        batches * size < count,
        0 <= tasks_done,
    ensures
        ({
            let after = drain_status(status, next, count, size, flushing, tasks_done);
            let stored = batched(batches, size, count);
            let stored_next = batched(batches + 1, size, count);
            let flushes = if flushing {
                batches
            } else {
                0
            };
            &&& after == JournalStatus {
                next_written_sequence: after.next_written_sequence,
                next_durable_sequence: after.next_durable_sequence,
                ..status
            }
            &&& stored + flushes <= tasks_done < stored_next + flushes
                ==> after.next_written_sequence == if batches == 0 {
                status.next_written_sequence as int
            } else {
                next + stored
            }
            &&& stored_next == count && tasks_done >= count + flushes
                ==> after.next_written_sequence == next + count
            &&& !flushing ==> after.next_durable_sequence == status.next_durable_sequence
            &&& flushing && stored + flushes <= tasks_done <= stored_next + flushes
                ==> after.next_durable_sequence == if batches == 0 {
                status.next_durable_sequence as int
            } else {
                next + stored
            }
            &&& flushing && stored_next == count && tasks_done > count + flushes
                ==> after.next_durable_sequence == next + count
        }),
    decreases count,
{
    let first = if count < size {
        count
    } else {
        size
    };
    let tasks = first + if flushing {
        1int
    } else {
        0int
    };
    let s = size as int;
    assert((batches + 1) * s == batches * s + s) by (nonlinear_arith);
    assert(1 * s == s);
    assert(0 * s == 0);
    lemma_drain_keeps(status, next, count, size, flushing, tasks_done);
    if batches == 0 {
        assert(batched(1, size, count) == first);
        if count == first && tasks_done >= tasks {
            let stored = batch_status(true, status, (next + first) as u64, first, tasks);
            assert(drain_status(stored, next + first, 0, size, flushing, tasks_done - tasks)
                == stored);
        }
    } else {
        assert(batches * s >= s) by (nonlinear_arith)
            requires
                batches >= 1,
                s > 0,
        ;
        assert((batches - 1) * s == batches * s - s) by (nonlinear_arith);
        if tasks_done >= tasks {
            law_drain_moves_watermarks(
                batch_status(true, status, (next + first) as u64, first, tasks),
                next + first,
                (count - first) as nat,
                size,
                flushing,
                tasks_done - tasks,
                batches - 1,
            );
        }
    }
}

} // verus!
