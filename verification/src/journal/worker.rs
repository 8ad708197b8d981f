//! The persistence worker: it drains the channel into a sink.

use vstd::prelude::*;

use crate::journal::channel::{
    given_up, goes_over, poisoned_if, JournalChannel, JournalReader, JournalStatus, ReadError, ReaderView,
};
use crate::journal::record::RecordView;
use crate::journal::sink::{
    all_done, lemma_progress_bounds, lemma_progress_more, lemma_progress_since, miscounted,
    progress, progress_since, took_prefix, write_all, write_tasks, DurableSink, SinkCall,
    SinkProgress, SinkTask, StorageError, StorageErrorKind,
};
use crate::journal::RECORD_SIZE;

verus! {

#[derive(Clone, Copy, Debug, PartialEq, Eq, Structural)]
pub enum FlushPolicy {
    EveryBatch,
    OnShutdown,
}

#[derive(Clone, Copy, Debug, PartialEq, Eq, Structural)]
pub enum PersistError {
    Read(ReadError),
    Io(StorageError),
    ProducerOpen,
    Poisoned,
}

impl ReaderView {
    /// The reader once it has read `count` more records.
    pub open spec fn after(self, count: nat) -> ReaderView {
        ReaderView { expected_sequence: (self.expected_sequence + count) as u64, ..self }
    }

    /// Why the reader stops behind `count` records.
    pub open spec fn fault_after(self, records: Seq<RecordView>, count: nat) -> Option<ReadError> {
        self.after(count).fault(records.skip(count as int))
    }

    /// How many records the reader has read when it stops, at `limit` at the
    /// latest, where it has read `from` of them.
    pub open spec fn run(self, records: Seq<RecordView>, limit: nat, from: nat) -> nat
        decreases limit - from,
    {
        if from < limit && self.fault_after(records, from) is None {
            self.run(records, limit, from + 1)
        } else {
            from
        }
    }

    /// How many records one batch holds.
    pub open spec fn batch(self, records: Seq<RecordView>, limit: nat) -> nat {
        self.run(records, limit, 0)
    }

    /// The fault that spoils a batch, if one does. That no record is left is
    /// none.
    pub open spec fn batch_fault(self, records: Seq<RecordView>, limit: nat) -> Option<ReadError> {
        let count = self.batch(records, limit);
        match self.fault_after(records, count) {
            Some(error) => if count < limit && error != ReadError::Empty {
                Some(error)
            } else {
                None
            },
            None => None,
        }
    }

    /// The records that are left behind a batch.
    pub open spec fn batch_rest(self, records: Seq<RecordView>, limit: nat) -> Seq<RecordView> {
        let count = self.batch(records, limit);
        if self.batch_fault(records, limit) is Some && !self.poisoned {
            records.skip((count + 1) as int)
        } else {
            records.skip(count as int)
        }
    }

    /// How many of the records the reader would read in all.
    pub open spec fn readable(self, records: Seq<RecordView>) -> nat {
        self.run(records, records.len(), 0)
    }

    /// Reading a batch does not change how far the reader gets in all.
    pub proof fn lemma_run_resumes(
        self,
        records: Seq<RecordView>,
        start: nat,
        limit: nat,
        from: nat,
    )
        requires
            start + from <= records.len(),
            from <= limit,
            self.expected_sequence + start + from <= u64::MAX,
        ensures
            ({
                let stop = self.after(start).run(records.skip(start as int), limit, from);
                &&& from <= stop <= limit
                &&& start + stop <= records.len()
                &&& self.expected_sequence + start + stop <= u64::MAX
                &&& self.run(records, records.len(), start + from) == self.run(
                    records,
                    records.len(),
                    start + stop,
                )
                &&& stop < limit ==> self.fault_after(records, start + stop) == self.after(
                    start,
                ).fault_after(records.skip(start as int), stop)
                &&& stop < limit ==> self.fault_after(records, start + stop) is Some
            }),
        decreases limit - from,
    {
        let rest = records.skip(start as int);
        assert(rest.skip(from as int) =~= records.skip((start + from) as int));
        assert(self.after(start).after(from) == self.after(start + from));
        if from < limit && self.after(start).fault_after(rest, from) is None {
            assert(self.fault_after(records, start + from) is None);
            self.lemma_run_resumes(records, start, limit, from + 1);
        }
    }

    /// Every record before the stop has no fault.
    pub proof fn lemma_run_valid(
        self,
        records: Seq<RecordView>,
        limit: nat,
        from: nat,
        index: nat,
    )
        requires
            from <= index < self.run(records, limit, from),
        ensures
            self.fault_after(records, index) is None,
        decreases limit - from,
    {
        if from < limit && self.fault_after(records, from) is None && from < index {
            self.lemma_run_valid(records, limit, from + 1, index);
        }
    }

    pub proof fn lemma_run(self, records: Seq<RecordView>, limit: nat, from: nat)
        requires
            from <= limit,
            from <= records.len(),
            self.expected_sequence + from <= u64::MAX,
        ensures
            from <= self.run(records, limit, from) <= limit,
            self.run(records, limit, from) <= records.len(),
            self.expected_sequence + self.run(records, limit, from) <= u64::MAX,
        decreases limit - from,
    {
        if from < limit && self.fault_after(records, from) is None {
            self.lemma_run(records, limit, from + 1);
        }
    }
}

/// The disk forms of the records, one behind the other.
pub open spec fn disk(records: Seq<RecordView>) -> Seq<u8>
    decreases records.len(),
{
    if records.len() == 0 {
        Seq::empty()
    } else {
        disk(records.drop_last()) + records.last().encoded()
    }
}

pub proof fn lemma_disk_step(records: Seq<RecordView>, count: int)
    requires
        0 <= count < records.len(),
    ensures
        disk(records.take(count + 1)) == disk(records.take(count)) + records[count].encoded(),
{
    assert(records.take(count + 1).drop_last() =~= records.take(count));
}

pub proof fn lemma_disk_split(records: Seq<RecordView>, count: int)
    requires
        0 <= count <= records.len(),
    ensures
        disk(records) == disk(records.take(count)) + disk(records.skip(count)),
    decreases records.len(),
{
    if count == records.len() {
        assert(records.take(count) =~= records);
        assert(disk(records) =~= disk(records) + Seq::<u8>::empty());
    } else {
        let shorter = records.drop_last();
        lemma_disk_split(shorter, count);
        assert(shorter.take(count) =~= records.take(count));
        assert(records.skip(count).drop_last() =~= shorter.skip(count));
        assert((disk(records.take(count)) + disk(shorter.skip(count))) + records.last().encoded()
            =~= disk(records.take(count)) + (disk(shorter.skip(count))
            + records.last().encoded()));
    }
}

/// Whole batches and a part of one, or one more.
proof fn lemma_batches(done: int, count: int, size: int)
    requires
        0 <= count <= size,
        0 < size,
        0 <= done,
        done % size == 0,
    ensures
        count < size ==> (done + count) % size == count,
        count == size ==> (done + count) % size == 0,
{
    vstd::arithmetic::div_mod::lemma_fundamental_div_mod(done, size);
    vstd::arithmetic::div_mod::lemma_mod_multiples_vanish(done / size, count, size);
    if count < size {
        vstd::arithmetic::div_mod::lemma_small_mod(count as nat, size as nat);
    } else {
        vstd::arithmetic::div_mod::lemma_mod_self_0(size);
    }
}

/// The watermarks once the records before `next` are written, and flushed where
/// `flushed` says so.
pub open spec fn published(
    controlled: bool,
    status: JournalStatus,
    next: u64,
    flushed: bool,
) -> JournalStatus {
    if controlled {
        JournalStatus {
            next_written_sequence: next,
            next_durable_sequence: if flushed {
                next
            } else {
                status.next_durable_sequence
            },
            ..status
        }
    } else {
        status
    }
}

/// The tasks of storing the records of one batch: each of them is written, and then
/// all are flushed where the policy asks for it and there is one.
pub open spec fn batch_tasks(records: Seq<RecordView>, flushing: bool) -> Seq<SinkTask> {
    record_tasks(records) + if flushing && records.len() > 0 {
        seq![SinkTask::Flush]
    } else {
        Seq::empty()
    }
}

/// The tasks of writing records, one behind the other.
pub open spec fn record_tasks(records: Seq<RecordView>) -> Seq<SinkTask> {
    Seq::new(records.len(), |i: int| SinkTask::Write(records[i].encoded()))
}

/// The tasks of storing records in batches of `size`.
pub open spec fn drain_tasks(records: Seq<RecordView>, size: nat, flushing: bool) -> Seq<SinkTask>
    decreases records.len(),
{
    if records.len() == 0 || size == 0 {
        Seq::empty()
    } else {
        let first = if records.len() < size {
            records.len() as int
        } else {
            size as int
        };
        batch_tasks(records.take(first), flushing) + drain_tasks(
            records.skip(first),
            size,
            flushing,
        )
    }
}

/// The watermarks once so many of the tasks of a batch are done: written once all
/// of its `count` records are, and durable once they are flushed behind that.
pub open spec fn batch_status(
    controlled: bool,
    status: JournalStatus,
    next: u64,
    count: nat,
    tasks_done: int,
) -> JournalStatus {
    if count == 0 || tasks_done < count {
        status
    } else {
        published(controlled, status, next, tasks_done > count)
    }
}

/// The watermarks of a controlled channel once so many of the tasks of storing
/// `count` records, from `next` on and in batches of `size`, are done.
pub open spec fn drain_status(
    status: JournalStatus,
    next: int,
    count: nat,
    size: nat,
    flushing: bool,
    tasks_done: int,
) -> JournalStatus
    decreases count,
{
    if count == 0 || size == 0 {
        status
    } else {
        let first = if count < size {
            count
        } else {
            size
        };
        let tasks = first + if flushing {
            1int
        } else {
            0int
        };
        if tasks_done < tasks {
            batch_status(true, status, (next + first) as u64, first, tasks_done)
        } else {
            drain_status(
                batch_status(true, status, (next + first) as u64, first, tasks),
                next + first,
                (count - first) as nat,
                size,
                flushing,
                tasks_done - tasks,
            )
        }
    }
}

/// A multiple that is not zero holds one more.
proof fn lemma_multiple(done: nat, size: nat)
    requires
        0 < size,
        done % size == 0,
        done > 0,
    ensures
        size <= done,
        ((done - size) as nat) % size == 0,
{
    if done < size {
        vstd::arithmetic::div_mod::lemma_small_mod(done, size);
    }
    vstd::arithmetic::div_mod::lemma_mod_sub_multiples_vanish(done as int, size as int);
}

/// Whole batches and what is behind them are stored one after the other.
proof fn lemma_drain_split(records: Seq<RecordView>, size: nat, flushing: bool, done: nat)
    requires
        0 < size,
        done <= records.len(),
        done % size == 0,
    ensures
        drain_tasks(records, size, flushing) == drain_tasks(
            records.take(done as int),
            size,
            flushing,
        ) + drain_tasks(records.skip(done as int), size, flushing),
    decreases records.len(),
{
    let head = records.take(done as int);
    if done == 0 {
        assert(records.skip(0) =~= records);
        assert(drain_tasks(head, size, flushing) + drain_tasks(records, size, flushing)
            =~= drain_tasks(records, size, flushing));
    } else {
        lemma_multiple(done, size);
        let first = size as int;
        let rest = records.skip(first);
        let left = (done - size) as nat;
        lemma_drain_split(rest, size, flushing, left);
        assert(head.take(first) =~= records.take(first));
        assert(head.skip(first) =~= rest.take(left as int));
        assert(rest.skip(left as int) =~= records.skip(done as int));
        assert(drain_tasks(records, size, flushing) =~= drain_tasks(head, size, flushing)
            + drain_tasks(records.skip(done as int), size, flushing));
    }
}

/// No more records than one batch holds are one batch.
proof fn lemma_drain_one(records: Seq<RecordView>, size: nat, flushing: bool)
    requires
        0 < size,
        0 < records.len() <= size,
    ensures
        drain_tasks(records, size, flushing) == batch_tasks(records, flushing),
{
    assert(records.take(records.len() as int) =~= records);
    assert(drain_tasks(records.skip(records.len() as int), size, flushing) =~= Seq::empty());
    assert(drain_tasks(records, size, flushing) =~= batch_tasks(records, flushing));
}

/// A first batch that is full, or takes all the records, is stored first.
proof fn lemma_drain_front(records: Seq<RecordView>, size: nat, flushing: bool, first: nat)
    requires
        0 < size,
        0 < first <= records.len(),
        first == size || first == records.len() && first < size,
    ensures
        drain_tasks(records, size, flushing) == batch_tasks(records.take(first as int), flushing)
            + drain_tasks(records.skip(first as int), size, flushing),
{
}

/// The watermarks behind whole batches go on from there.
proof fn lemma_drain_status(
    records: Seq<RecordView>,
    size: nat,
    flushing: bool,
    done: nat,
    status: JournalStatus,
    next: int,
    more: int,
)
    requires
        0 < size,
        done <= records.len(),
        done % size == 0,
        0 <= more,
    ensures
        ({
            let tasks = drain_tasks(records.take(done as int), size, flushing).len() as int;
            drain_status(status, next, records.len(), size, flushing, tasks + more)
                == drain_status(
                drain_status(status, next, done, size, flushing, tasks),
                next + done,
                (records.len() - done) as nat,
                size,
                flushing,
                more,
            )
        }),
    decreases records.len(),
{
    let head = records.take(done as int);
    if done > 0 {
        lemma_multiple(done, size);
        let first = size as int;
        let rest = records.skip(first);
        let left = (done - size) as nat;
        let tasks = first + if flushing {
            1int
        } else {
            0int
        };
        let after = batch_status(true, status, (next + first) as u64, size, tasks);
        lemma_drain_status(rest, size, flushing, left, after, next + first, more);
        assert(head.take(first) =~= records.take(first));
        assert(head.skip(first) =~= rest.take(left as int));
        assert(batch_tasks(head.take(first), flushing).len() == tasks);
    }
}

/// One more batch is stored behind whole ones.
proof fn lemma_batch_drained(
    records: Seq<RecordView>,
    size: nat,
    flushing: bool,
    done: nat,
    count: nat,
    status: JournalStatus,
    next: int,
    start: Seq<SinkCall>,
    middle: Seq<SinkCall>,
    end: Seq<SinkCall>,
)
    requires
        0 < count <= size,
        done % size == 0,
        done + count <= records.len(),
        progress_since(start, middle, drain_tasks(records.take(done as int), size, flushing))
            == all_done(),
        progress_since(
            middle,
            end,
            batch_tasks(records.subrange(done as int, (done + count) as int), flushing),
        ) == all_done(),
    ensures
        ({
            let before = drain_tasks(records.take(done as int), size, flushing);
            let after = drain_tasks(records.take((done + count) as int), size, flushing);
            let batch = records.subrange(done as int, (done + count) as int);
            &&& progress_since(start, end, after) == all_done()
            &&& drain_status(status, next, done + count, size, flushing, after.len() as int)
                == batch_status(
                true,
                drain_status(status, next, done, size, flushing, before.len() as int),
                (next + done + count) as u64,
                count,
                batch_tasks(batch, flushing).len() as int,
            )
        }),
{
    let before = drain_tasks(records.take(done as int), size, flushing);
    let batch = records.subrange(done as int, (done + count) as int);
    let more = batch_tasks(batch, flushing);
    let longer = records.take((done + count) as int);
    lemma_drain_split(longer, size, flushing, done);
    assert(longer.take(done as int) =~= records.take(done as int));
    assert(longer.skip(done as int) =~= batch);
    lemma_drain_one(batch, size, flushing);
    lemma_progress_since(start, middle, end, before, more);
    lemma_drain_status(longer, size, flushing, done, status, next, more.len() as int);
    let standing = drain_status(status, next, done, size, flushing, before.len() as int);
    lemma_one_batch(standing, next + done, count, size, flushing, more.len() as int);
}

/// A sink has failed in one more batch behind whole ones.
proof fn lemma_batch_stopped(
    records: Seq<RecordView>,
    size: nat,
    flushing: bool,
    done: nat,
    count: nat,
    status: JournalStatus,
    next: int,
    start: Seq<SinkCall>,
    middle: Seq<SinkCall>,
    end: Seq<SinkCall>,
)
    requires
        0 < count <= size,
        done % size == 0,
        done + count <= records.len(),
        count == size || done + count == records.len(),
        progress_since(start, middle, drain_tasks(records.take(done as int), size, flushing))
            == all_done(),
        progress_since(
            middle,
            end,
            batch_tasks(records.subrange(done as int, (done + count) as int), flushing),
        ) is Stopped,
    ensures
        ({
            let before = drain_tasks(records.take(done as int), size, flushing);
            let more = batch_tasks(
                records.subrange(done as int, (done + count) as int),
                flushing,
            );
            let all = drain_tasks(records, size, flushing).push(SinkTask::Flush);
            let stop = progress_since(middle, end, more);
            let stopped = progress_since(start, end, all);
            &&& stopped is Stopped
            &&& stopped->error == stop->error
            &&& stopped->left.len() > 1
            &&& drain_status(
                status,
                next,
                records.len(),
                size,
                flushing,
                all.len() - stopped->left.len(),
            ) == batch_status(
                true,
                drain_status(status, next, done, size, flushing, before.len() as int),
                (next + done + count) as u64,
                count,
                more.len() - stop->left.len(),
            )
        }),
{
    let before = drain_tasks(records.take(done as int), size, flushing);
    let batch = records.subrange(done as int, (done + count) as int);
    let more = batch_tasks(batch, flushing);
    let all = drain_tasks(records, size, flushing).push(SinkTask::Flush);
    let tail = drain_tasks(records.skip((done + count) as int), size, flushing).push(
        SinkTask::Flush,
    );
    let rest = records.skip(done as int);
    let stop = progress_since(middle, end, more);
    lemma_progress_since(start, middle, end, before, more);
    lemma_progress_bounds(more, end.skip(middle.len() as int));
    lemma_progress_more(before + more, tail, end.skip(start.len() as int));
    lemma_drain_split(records, size, flushing, done);
    lemma_drain_front(rest, size, flushing, count);
    assert(rest.take(count as int) =~= batch);
    assert(rest.skip(count as int) =~= records.skip((done + count) as int));
    assert(all =~= before + more + tail);
    let standing = drain_status(status, next, done, size, flushing, before.len() as int);
    let tasks_done = more.len() - stop->left.len();
    lemma_drain_status(records, size, flushing, done, status, next, tasks_done);
    assert(drain_status(
        standing,
        next + done,
        (records.len() - done) as nat,
        size,
        flushing,
        tasks_done,
    ) == batch_status(true, standing, (next + done + count) as u64, count, tasks_done));
}

/// The watermarks of no more records than one batch holds are those of the batch.
proof fn lemma_one_batch(
    status: JournalStatus,
    next: int,
    count: nat,
    size: nat,
    flushing: bool,
    tasks: int,
)
    requires
        0 < count <= size,
        tasks == count + if flushing {
            1int
        } else {
            0int
        },
    ensures
        drain_status(status, next, count, size, flushing, tasks) == batch_status(
            true,
            status,
            (next + count) as u64,
            count,
            tasks,
        ),
{
    let after = batch_status(true, status, (next + count) as u64, count, tasks);
    assert(drain_status(after, next + count, 0, size, flushing, 0) == after);
}

/// A batch without records calls for nothing.
proof fn lemma_nothing_drained(
    start: Seq<SinkCall>,
    middle: Seq<SinkCall>,
    end: Seq<SinkCall>,
    tasks: Seq<SinkTask>,
    flushing: bool,
)
    requires
        progress_since(start, middle, tasks) == all_done(),
        progress_since(middle, end, batch_tasks(Seq::empty(), flushing)) == all_done(),
    ensures
        progress_since(start, end, tasks) == all_done(),
{
    let more = batch_tasks(Seq::empty(), flushing);
    assert(more =~= Seq::<SinkTask>::empty());
    lemma_progress_since(start, middle, end, tasks, more);
    assert(tasks + more =~= tasks);
}

/// Persists the records of one channel.
pub struct PersistenceWorker<S, const BATCH: usize> {
    reader: JournalReader,
    sink: S,
    policy: FlushPolicy,
    poisoned: bool,
}

impl<S: DurableSink, const BATCH: usize> PersistenceWorker<S, BATCH> {
    pub closed spec fn reader(&self) -> ReaderView {
        self.reader@
    }

    pub closed spec fn sink(&self) -> S {
        self.sink
    }

    pub closed spec fn policy(&self) -> FlushPolicy {
        self.policy
    }

    pub closed spec fn poisoned(&self) -> bool {
        self.poisoned
    }

    /// A worker holds at least one record in a batch. A controlled reader that
    /// has rejected a record ends its worker.
    pub open spec fn wf(&self) -> bool {
        &&& BATCH > 0
        &&& self.reader().controlled && self.reader().poisoned ==> self.poisoned()
    }

    /// The watermarks of a controlled channel are those of its worker.
    pub open spec fn in_step(&self, status: JournalStatus) -> bool {
        self.reader().controlled ==> {
            &&& self.poisoned() ==> status.poisoned
            &&& status.next_durable_sequence <= status.next_written_sequence
                <= self.reader().expected_sequence
            &&& !self.poisoned() ==> status.next_written_sequence
                == self.reader().expected_sequence
        }
    }

    /// The answer to a shutdown that does not drain, if it does not.
    pub open spec fn shutdown_answer(&self, status: JournalStatus) -> Option<
        Result<(), PersistError>,
    > {
        if self.poisoned() {
            Some(Err(PersistError::Poisoned))
        } else if self.reader().shutdown_complete {
            Some(Ok(()))
        } else if !self.reader().controlled || !status.producer_closed {
            Some(Err(PersistError::ProducerOpen))
        } else {
            None
        }
    }

    /// Creates a persistence worker. It is refused when `BATCH` is zero or a
    /// controlled reader has consumed or rejected records. A refusal gives the
    /// reader up, which poisons a controlled channel.
    pub fn new(
        reader: JournalReader,
        sink: S,
        policy: FlushPolicy,
        channel: &mut JournalChannel,
    ) -> (outcome: Result<Self, StorageError>)
        requires
            old(channel).wf(),
        ensures
            final(channel).wf(),
            final(channel).records() == old(channel).records(),
            outcome is Err <==> (BATCH == 0 || reader@.controlled && (reader@.poisoned
                || reader@.expected_sequence != old(channel).status().next_written_sequence)),
            outcome is Err ==> {
                &&& outcome->Err_0 == StorageError::spec_of(StorageErrorKind::InvalidInput)
                &&& final(channel).status() == given_up(reader@, old(channel).status())
            },
            outcome is Ok ==> {
                let worker = outcome->Ok_0;
                &&& worker.wf()
                &&& worker.reader() == reader@
                &&& worker.sink() == sink
                &&& worker.policy() == policy
                &&& !worker.poisoned()
                &&& final(channel).status() == old(channel).status()
                &&& old(channel).status().next_durable_sequence
                    <= old(channel).status().next_written_sequence ==> worker.in_step(
                    final(channel).status(),
                )
            },
    {
        if BATCH == 0 {
            reader.abandon(channel);
            return Err(StorageError::of(StorageErrorKind::InvalidInput));
        }
        if reader.is_controlled() && (reader.is_poisoned() || reader.expected_sequence()
            != channel.next_written_sequence()) {
            reader.abandon(channel);
            return Err(StorageError::of(StorageErrorKind::InvalidInput));
        }
        Ok(PersistenceWorker { reader, sink, policy, poisoned: false })
    }

    /// Reads the records of one batch in disk form.
    fn collect(&mut self, channel: &mut JournalChannel) -> (outcome: Result<
        Vec<[u8; RECORD_SIZE]>,
        ReadError,
    >)
        requires
            old(channel).wf(),
        ensures
            final(channel).wf(),
            final(self).sink() == old(self).sink(),
            final(self).policy() == old(self).policy(),
            final(self).poisoned() == old(self).poisoned(),
            final(self).reader().controlled == old(self).reader().controlled,
            final(self).reader().shutdown_complete == old(self).reader().shutdown_complete,
            final(channel).records() == old(self).reader().batch_rest(
                old(channel).records(),
                BATCH as nat,
            ),
            final(self).reader().expected_sequence == old(self).reader().expected_sequence
                + old(self).reader().batch(old(channel).records(), BATCH as nat),
            match old(self).reader().batch_fault(old(channel).records(), BATCH as nat) {
                Some(error) => {
                    &&& outcome is Err
                    &&& outcome->Err_0 == error
                    &&& final(channel).status() == poisoned_if(
                        old(self).reader().controlled && !old(self).reader().poisoned,
                        old(channel).status(),
                    )
                },
                None => {
                    let count = old(self).reader().batch(old(channel).records(), BATCH as nat);
                    &&& outcome is Ok
                    &&& outcome->Ok_0@.len() == count
                    &&& forall|i: int|
                        0 <= i < count ==> (#[trigger] outcome->Ok_0@[i])@ == old(channel).records()[i].encoded()
                    &&& final(self).reader().poisoned == old(self).reader().poisoned
                    &&& final(channel).status() == old(channel).status()
                },
            },
    {
        let ghost reader = self.reader@;
        let ghost records = channel.records();
        let mut batch: Vec<[u8; RECORD_SIZE]> = Vec::new();
        assert(records.skip(0) =~= records);
        while batch.len() < BATCH
            invariant
                batch.len() <= BATCH,
                batch.len() <= records.len(),
                channel.wf(),
                self.sink == old(self).sink,
                self.policy == old(self).policy,
                self.poisoned == old(self).poisoned,
                reader == old(self).reader@,
                records == old(channel).records(),
                reader.expected_sequence + batch.len() <= u64::MAX,
                self.reader@ == reader.after(batch@.len()),
                channel.records() == records.skip(batch@.len() as int),
                channel.status() == old(channel).status(),
                reader.batch(records, BATCH as nat) == reader.run(
                    records,
                    BATCH as nat,
                    batch@.len(),
                ),
                forall|i: int|
                    0 <= i < batch@.len() ==> (#[trigger] batch@[i])@ == records[i].encoded(),
            decreases BATCH - batch.len(),
        {
            let ghost count = batch@.len();
            match self.reader.read(channel) {
                Ok(record) => {
                    assert(records.skip(count as int).skip(1) =~= records.skip((count + 1) as int));
                    batch.push(record.encode());
                },
                Err(ReadError::Empty) => {
                    assert(reader.batch(records, BATCH as nat) == count);
                    return Ok(batch);
                },
                Err(error) => {
                    assert(reader.batch(records, BATCH as nat) == count);
                    proof {
                        if !reader.poisoned {
                            assert(records.skip(count as int).skip(1) =~= records.skip(
                                (count + 1) as int,
                            ));
                        }
                    }
                    return Err(error);
                },
            }
        }
        Ok(batch)
    }

    /// Writes the batch to the sink.
    fn store(&mut self, batch: &Vec<[u8; RECORD_SIZE]>, Ghost(records): Ghost<Seq<RecordView>>) -> (
    outcome: Result<(), StorageError>)
        requires
            batch@.len() == records.len(),
            forall|i: int|
                0 <= i < records.len() ==> (#[trigger] batch@[i])@ == records[i].encoded(),
        ensures
            final(self).reader() == old(self).reader(),
            final(self).policy() == old(self).policy(),
            final(self).poisoned() == old(self).poisoned(),
            ({
                let end = progress_since(
                    old(self).sink().calls(),
                    final(self).sink().calls(),
                    record_tasks(records),
                );
                match outcome {
                    Ok(()) => end == all_done(),
                    Err(error) => end is Stopped && end->error == error,
                }
            }),
            outcome is Ok ==> final(self).sink().taken() == old(self).sink().taken() + disk(records),
            outcome is Err && outcome->Err_0 != miscounted() ==> took_prefix(
                old(self).sink().taken(),
                disk(records),
                final(self).sink().taken(),
            ),
            records.len() == 0 ==> outcome is Ok,
            old(self).sink().reliable() ==> outcome is Ok && final(self).sink().reliable(),
    {
        let ghost before = self.sink.taken();
        let ghost calls = self.sink.calls();
        let ghost tasks = record_tasks(records);
        let mut index: usize = 0;
        assert(tasks.take(0) =~= Seq::<SinkTask>::empty());
        assert(calls.skip(calls.len() as int) =~= Seq::<SinkCall>::empty());
        assert(records.take(0) =~= Seq::<RecordView>::empty());
        assert(before =~= before + disk(records.take(0)));
        while index < batch.len()
            invariant
                index <= batch@.len() == records.len(),
                forall|i: int|
                    0 <= i < records.len() ==> (#[trigger] batch@[i])@ == records[i].encoded(),
                self.reader == old(self).reader,
                self.policy == old(self).policy,
                self.poisoned == old(self).poisoned,
                before == old(self).sink.taken(),
                calls == old(self).sink.calls(),
                tasks == record_tasks(records),
                progress_since(calls, self.sink.calls(), tasks.take(index as int)) == all_done(),
                self.sink.taken() == before + disk(records.take(index as int)),
                old(self).sink.reliable() ==> self.sink.reliable(),
            decreases batch@.len() - index,
        {
            let ghost written = self.sink.taken();
            let ghost called = self.sink.calls();
            let ghost form = records[index as int].encoded();
            let outcome = write_all(&mut self.sink, batch[index].as_slice());
            proof {
                lemma_disk_step(records, index as int);
                let more = write_tasks(form);
                assert(form == batch@[index as int]@);
                assert(more =~= seq![tasks[index as int]]);
                lemma_progress_since(
                    calls,
                    called,
                    self.sink.calls(),
                    tasks.take(index as int),
                    more,
                );
                assert(tasks.take(index as int) + more =~= tasks.take(index + 1));
            }
            match outcome {
                Ok(()) => {
                    assert(self.sink.taken() =~= before + disk(records.take(index + 1)));
                },
                Err(error) => {
                    proof {
                        let behind = tasks.skip(index + 1);
                        let made = self.sink.calls().skip(calls.len() as int);
                        lemma_progress_more(tasks.take(index + 1), behind, made);
                        assert(tasks.take(index + 1) + behind =~= tasks);
                        if error != miscounted() {
                            let count = choose|count: int|
                                0 <= count <= form.len() && self.sink.taken() == written
                                    + #[trigger] form.take(count);
                            let head = disk(records.take(index as int));
                            lemma_disk_split(records, index + 1);
                            assert(disk(records).take(head.len() + count) =~= head + form.take(
                                count,
                            ));
                            assert(self.sink.taken() =~= before + disk(records).take(
                                head.len() + count,
                            ));
                        }
                    }
                    return Err(error);
                },
            }
            index = index + 1;
        }
        assert(records.take(index as int) =~= records);
        assert(tasks.take(index as int) =~= tasks);
        Ok(())
    }

    fn fail(&mut self, channel: &mut JournalChannel)
        requires
            old(channel).wf(),
        ensures
            final(channel).wf(),
            final(channel).records() == old(channel).records(),
            final(channel).status() == poisoned_if(
                old(self).reader().controlled,
                old(channel).status(),
            ),
            final(self).reader() == old(self).reader(),
            final(self).sink() == old(self).sink(),
            final(self).policy() == old(self).policy(),
            final(self).poisoned(),
    {
        self.poisoned = true;
        self.reader.poison_status(channel);
    }

    /// Persists at most `BATCH` records: it reads them, writes them all, and then
    /// flushes the sink where the policy asks for it. The first validation or
    /// storage error ends the worker. A batch with a record that is not valid is
    /// not written at all.
    #[verifier::rlimit(40)]
    pub fn drain_batch(&mut self, channel: &mut JournalChannel) -> (outcome: Result<
        usize,
        PersistError,
    >)
        requires
            old(self).wf(),
            old(channel).wf(),
        ensures
            final(self).wf(),
            final(channel).wf(),
            final(self).policy() == old(self).policy(),
            final(self).reader().controlled == old(self).reader().controlled,
            final(self).reader().shutdown_complete == old(self).reader().shutdown_complete,
            old(self).in_step(old(channel).status()) ==> final(self).in_step(
                final(channel).status(),
            ) && goes_over(
                old(channel).status(),
                old(channel).records().len(),
                final(channel).status(),
                final(channel).records().len(),
            ),
            outcome is Err ==> final(self).poisoned(),
            old(self).poisoned() ==> {
                &&& outcome == Err::<usize, _>(PersistError::Poisoned)
                &&& *final(self) == *old(self)
                &&& final(channel).records() == old(channel).records()
                &&& final(channel).status() == old(channel).status()
            },
            !old(self).poisoned() ==> {
                let count = old(self).reader().batch(old(channel).records(), BATCH as nat);
                &&& final(channel).records() == old(self).reader().batch_rest(
                    old(channel).records(),
                    BATCH as nat,
                )
                &&& final(self).reader().expected_sequence == old(self).reader().expected_sequence
                    + count
                &&& match old(self).reader().batch_fault(old(channel).records(), BATCH as nat) {
                    Some(error) => {
                        &&& outcome == Err::<usize, _>(PersistError::Read(error))
                        &&& final(self).poisoned()
                        &&& final(self).sink() == old(self).sink()
                        &&& final(channel).status() == poisoned_if(
                            old(self).reader().controlled,
                            old(channel).status(),
                        )
                    },
                    None => stored(
                        *old(self),
                        *final(self),
                        old(channel).records().take(count as int),
                        old(channel).status(),
                        final(channel).status(),
                        outcome,
                    ),
                }
            },
    {
        if self.poisoned {
            return Err(PersistError::Poisoned);
        }
        let ghost records = channel.records();
        let ghost status = channel.status();
        let ghost reader = self.reader();
        proof {
            reader.lemma_run(records, BATCH as nat, 0);
        }
        let batch = match self.collect(channel) {
            Ok(batch) => batch,
            Err(error) => {
                self.fail(channel);
                return Err(PersistError::Read(error));
            },
        };
        let ghost taken = records.take(batch@.len() as int);
        let ghost calls = self.sink().calls();
        let ghost flushing = self.policy == FlushPolicy::EveryBatch;
        let ghost writes = record_tasks(taken);
        let ghost flushes = if flushing && taken.len() > 0 {
            seq![SinkTask::Flush]
        } else {
            Seq::empty()
        };
        if let Err(error) = self.store(&batch, Ghost(taken)) {
            proof {
                let made = self.sink().calls().skip(calls.len() as int);
                lemma_progress_more(writes, flushes, made);
                lemma_progress_bounds(writes, made);
            }
            self.fail(channel);
            return Err(PersistError::Io(error));
        }
        if batch.len() != 0 {
            self.reader.publish_written(channel);
        }
        let ghost written = self.sink().calls();
        if batch.len() != 0 && self.policy == FlushPolicy::EveryBatch {
            let flushed = self.sink.flush();
            proof {
                let call = SinkCall::Flush { answer: flushed };
                lemma_progress_since(calls, written, self.sink().calls(), writes, flushes);
                lemma_one_call(written, call);
                lemma_flush(flushed);
            }
            if let Err(error) = flushed {
                assert(disk(taken).take(disk(taken).len() as int) =~= disk(taken));
                self.fail(channel);
                return Err(PersistError::Io(error));
            }
            self.reader.publish_durable(channel);
        } else {
            assert(writes + flushes =~= writes);
        }
        Ok(batch.len())
    }

    /// Drains the queue and flushes the sink after the producer has closed.
    #[verifier::spinoff_prover]
    #[verifier::rlimit(100)]
    pub fn shutdown(&mut self, channel: &mut JournalChannel) -> (outcome: Result<(), PersistError>)
        requires
            old(self).wf(),
            old(channel).wf(),
        ensures
            final(self).wf(),
            final(channel).wf(),
            final(self).policy() == old(self).policy(),
            final(self).reader().controlled == old(self).reader().controlled,
            old(self).in_step(old(channel).status()) ==> final(self).in_step(
                final(channel).status(),
            ) && goes_over(
                old(channel).status(),
                old(channel).records().len(),
                final(channel).status(),
                final(channel).records().len(),
            ),
            match old(self).shutdown_answer(old(channel).status()) {
                Some(answer) => {
                    &&& outcome == answer
                    &&& *final(self) == *old(self)
                    &&& final(channel).records() == old(channel).records()
                    &&& final(channel).status() == old(channel).status()
                },
                None => {
                    let records = old(channel).records();
                    let count = old(self).reader().readable(records);
                    let next = (old(self).reader().expected_sequence + count) as u64;
                    let flushing = old(self).policy() == FlushPolicy::EveryBatch;
                    let size = BATCH as nat;
                    let tasks = drain_tasks(records, size, flushing).push(SinkTask::Flush);
                    let end = progress_since(
                        old(self).sink().calls(),
                        final(self).sink().calls(),
                        tasks,
                    );
                    match outcome {
                        Ok(()) => {
                            &&& count == records.len()
                            &&& end == all_done()
                            &&& final(self).sink().durable() == final(self).sink().taken().len()
                            &&& !final(self).poisoned()
                            &&& final(self).reader().shutdown_complete
                            &&& final(self).reader().expected_sequence == next
                            &&& final(self).sink().taken() == old(self).sink().taken() + disk(
                                records,
                            )
                            &&& final(channel).records() == Seq::<RecordView>::empty()
                            &&& final(channel).status() == JournalStatus {
                                next_durable_sequence: next,
                                next_written_sequence: if count == 0 {
                                    old(channel).status().next_written_sequence
                                } else {
                                    next
                                },
                                shutdown_complete: true,
                                ..old(channel).status()
                            }
                        },
                        Err(error) => {
                            &&& final(self).poisoned()
                            &&& !final(self).reader().shutdown_complete
                            &&& final(channel).status().poisoned
                            &&& !final(channel).status().shutdown_complete
                                || old(channel).status().shutdown_complete
                            &&& !flushing ==> final(channel).status().next_durable_sequence
                                == old(channel).status().next_durable_sequence
                            &&& match error {
                                PersistError::Read(fault) => {
                                    let whole = records.take(count - count % size);
                                    let before_fault = drain_tasks(whole, size, flushing);
                                    &&& count < records.len()
                                    &&& progress_since(
                                        old(self).sink().calls(),
                                        final(self).sink().calls(),
                                        before_fault,
                                    ) == all_done()
                                    &&& final(channel).status() == poisoned_if(
                                        true,
                                        drain_status(
                                            old(channel).status(),
                                            old(self).reader().expected_sequence as int,
                                            whole.len(),
                                            size,
                                            flushing,
                                            before_fault.len() as int,
                                        ),
                                    )
                                    &&& Some(fault) == old(self).reader().fault_after(
                                        records,
                                        count,
                                    )
                                    &&& final(channel).records() == records.skip((count + 1) as int)
                                    &&& final(self).sink().taken() == old(self).sink().taken()
                                        + disk(records.take(count - count % (BATCH as nat)))
                                },
                                PersistError::Io(fault) => {
                                    &&& end is Stopped
                                    &&& end->error == fault
                                    &&& end->left.len() == 1 ==> count == records.len()
                                    &&& final(channel).status() == poisoned_if(
                                        true,
                                        drain_status(
                                            old(channel).status(),
                                            old(self).reader().expected_sequence as int,
                                            records.len(),
                                            size,
                                            flushing,
                                            tasks.len() - end->left.len(),
                                        ),
                                    )
                                    &&& !old(self).sink().reliable()
                                    &&& fault != miscounted() ==> took_prefix(
                                        old(self).sink().taken(),
                                        disk(records),
                                        final(self).sink().taken(),
                                    )
                                },
                                _ => false,
                            }
                        },
                    }
                },
            },
    {
        if self.poisoned {
            return Err(PersistError::Poisoned);
        }
        if self.reader.is_complete() {
            return Ok(());
        }
        if !(self.reader.is_controlled() && channel.producer_closed()) {
            return Err(PersistError::ProducerOpen);
        }
        let ghost records = channel.records();
        let ghost reader = self.reader();
        let ghost first = channel.status();
        let ghost before = self.sink().taken();
        let ghost calls = self.sink().calls();
        let ghost flushing = self.policy() == FlushPolicy::EveryBatch;
        let ghost size = BATCH as nat;
        let ghost all = drain_tasks(records, size, flushing);
        let ghost mut done: nat = 0;
        assert(calls.skip(calls.len() as int) =~= Seq::<SinkCall>::empty());
        assert(drain_tasks(records.take(0), size, flushing) =~= Seq::empty());
        assert(records.skip(0) =~= records);
        assert(records.take(0) =~= Seq::<RecordView>::empty());
        assert(before =~= before + disk(records.take(0)));
        loop
            invariant_except_break
                done % (BATCH as nat) == 0 || done == records.len(),
            invariant
                self.wf(),
                channel.wf(),
                !self.poisoned(),
                !reader.poisoned,
                reader.controlled,
                !reader.shutdown_complete,
                old(self).shutdown_answer(first) is None,
                reader == old(self).reader(),
                records == old(channel).records(),
                first == old(channel).status(),
                before == old(self).sink().taken(),
                self.policy() == old(self).policy(),
                old(self).sink().reliable() ==> self.sink().reliable(),
                old(self).in_step(first) ==> self.in_step(channel.status()) && goes_over(
                    first,
                    records.len(),
                    channel.status(),
                    channel.records().len(),
                ),
                calls == old(self).sink().calls(),
                flushing == (old(self).policy() == FlushPolicy::EveryBatch),
                size == BATCH,
                all == drain_tasks(records, size, flushing),
                progress_since(
                    calls,
                    self.sink().calls(),
                    drain_tasks(records.take(done as int), size, flushing),
                ) == all_done(),
                channel.status() == drain_status(
                    first,
                    reader.expected_sequence as int,
                    done,
                    size,
                    flushing,
                    drain_tasks(records.take(done as int), size, flushing).len() as int,
                ),
                !flushing ==> channel.status().next_durable_sequence
                    == first.next_durable_sequence,
                done <= records.len(),
                reader.expected_sequence + done <= u64::MAX,
                self.reader() == reader.after(done),
                channel.records() == records.skip(done as int),
                reader.readable(records) == reader.run(records, records.len(), done),
                self.sink().taken() == before + disk(records.take(done as int)),
                channel.status().next_written_sequence == if done == 0 {
                    first.next_written_sequence
                } else {
                    (reader.expected_sequence + done) as u64
                },
                channel.status() == (JournalStatus {
                    next_written_sequence: channel.status().next_written_sequence,
                    next_durable_sequence: channel.status().next_durable_sequence,
                    ..first
                }),
            ensures
                reader.readable(records) == done == records.len(),
            decreases channel.records().len(),
        {
            let ghost rest = channel.records();
            let ghost current = self.reader();
            let ghost called = self.sink().calls();
            let ghost count = current.batch(rest, BATCH as nat);
            proof {
                reader.lemma_run_resumes(records, done, BATCH as nat, 0);
                assert(rest.take(count as int) =~= records.skip(done as int).take(count as int));
                lemma_disk_split(records.take((done + count) as int), done as int);
                assert(records.take((done + count) as int).take(done as int) =~= records.take(
                    done as int,
                ));
                assert(records.take((done + count) as int).skip(done as int) =~= rest.take(
                    count as int,
                ));
                assert(rest.skip(count as int) =~= records.skip((done + count) as int));
                if done % (BATCH as nat) == 0 {
                    lemma_batches(done as int, count as int, BATCH as int);
                }
            }
            let drained = self.drain_batch(channel);
            proof {
                let batch = rest.take(count as int);
                if count > 0 && current.batch_fault(rest, size) is None {
                    assert(batch =~= records.subrange(done as int, (done + count) as int));
                    if drained is Ok {
                        lemma_batch_drained(
                            records,
                            size,
                            flushing,
                            done,
                            count,
                            first,
                            reader.expected_sequence as int,
                            calls,
                            called,
                            self.sink().calls(),
                        );
                    } else {
                        lemma_batch_stopped(
                            records,
                            size,
                            flushing,
                            done,
                            count,
                            first,
                            reader.expected_sequence as int,
                            calls,
                            called,
                            self.sink().calls(),
                        );
                    }
                } else if count == 0 && drained is Ok {
                    assert(batch =~= Seq::<RecordView>::empty());
                    lemma_nothing_drained(
                        calls,
                        called,
                        self.sink().calls(),
                        drain_tasks(records.take(done as int), size, flushing),
                        flushing,
                    );
                    assert(records.take((done + count) as int) =~= records.take(done as int));
                }
            }
            match drained {
                Ok(drained_count) => {
                    proof {
                        assert(self.sink().taken() =~= before + disk(
                            records.take((done + count) as int),
                        ));
                        done = done + count;
                    }
                    if drained_count == 0 {
                        break;
                    }
                },
                Err(error) => {
                    proof {
                        if current.batch_fault(rest, BATCH as nat) is Some {
                            assert(reader.readable(records) == done + count);
                            assert(rest.skip((count + 1) as int) =~= records.skip(
                                (done + count + 1) as int,
                            ));
                        } else if error->Io_0 != miscounted() {
                            let head = disk(records.take(done as int));
                            let batch = disk(rest.take(count as int));
                            let part = choose|part: int|
                                0 <= part <= batch.len() && self.sink().taken() == before + head
                                    + #[trigger] batch.take(part);
                            lemma_disk_split(records, (done + count) as int);
                            assert(disk(records).take(head.len() + part) =~= head + batch.take(
                                part,
                            ));
                            assert(self.sink().taken() =~= before + disk(records).take(
                                head.len() + part,
                            ));
                        }
                    }
                    return Err(error);
                },
            }
        }
        assert(records.take(done as int) =~= records);
        let ghost called = self.sink().calls();
        let flushed = self.sink.flush();
        proof {
            let last = seq![SinkTask::Flush];
            lemma_progress_since(calls, called, self.sink().calls(), all, last);
            lemma_one_call(called, SinkCall::Flush { answer: flushed });
            lemma_flush(flushed);
            assert(all + last =~= all.push(SinkTask::Flush));
        }
        if let Err(error) = flushed {
            assert(disk(records).take(disk(records).len() as int) =~= disk(records));
            self.fail(channel);
            return Err(PersistError::Io(error));
        }
        self.reader.publish_durable(channel);
        self.reader.complete(channel);
        Ok(())
    }

    /// Gives the worker up with its sink. Unless its shutdown is complete, a
    /// controlled channel is poisoned.
    pub fn abandon(self, channel: &mut JournalChannel)
        requires
            old(channel).wf(),
        ensures
            final(channel).wf(),
            final(channel).records() == old(channel).records(),
            final(channel).status() == given_up(self.reader(), old(channel).status()),
    {
        let PersistenceWorker { reader, .. } = self;
        reader.abandon(channel);
    }

    /// Returns the sink, only when no terminal error has occurred. The reader is
    /// given up, so taking a controlled sink before shutdown poisons the channel.
    pub fn into_sink(self, channel: &mut JournalChannel) -> (outcome: Result<S, PersistError>)
        requires
            old(channel).wf(),
        ensures
            final(channel).wf(),
            final(channel).records() == old(channel).records(),
            final(channel).status() == given_up(self.reader(), old(channel).status()),
            outcome == if self.poisoned() {
                Err::<S, _>(PersistError::Poisoned)
            } else {
                Ok::<_, PersistError>(self.sink())
            },
    {
        let PersistenceWorker { reader, sink, poisoned, .. } = self;
        reader.abandon(channel);
        if poisoned {
            Err(PersistError::Poisoned)
        } else {
            Ok(sink)
        }
    }
}

/// One more call is the only one since.
proof fn lemma_one_call(before: Seq<SinkCall>, call: SinkCall)
    ensures
        before.is_prefix_of(before.push(call)),
        before.push(call).skip(before.len() as int) == seq![call],
{
    assert(before.push(call).take(before.len() as int) =~= before);
    assert(before.push(call).skip(before.len() as int) =~= seq![call]);
}

/// What one flush does.
proof fn lemma_flush(answer: Result<(), StorageError>)
    ensures
        progress(seq![SinkTask::Flush], seq![SinkCall::Flush { answer }]) == match answer {
            Ok(()) => all_done(),
            Err(error) => SinkProgress::Stopped { error, left: seq![SinkTask::Flush] },
        },
{
    let calls = seq![SinkCall::Flush { answer }];
    assert(calls.drop_last() =~= Seq::<SinkCall>::empty());
    assert(seq![SinkTask::Flush].skip(1) =~= Seq::<SinkTask>::empty());
    assert(progress(seq![SinkTask::Flush], calls.drop_last()) == SinkProgress::Left(
        seq![SinkTask::Flush],
    ));
}

/// What a worker has done with the valid records of a batch, by what the sink
/// answered: all of them are written and published, or the sink has failed.
pub open spec fn stored<S: DurableSink, const BATCH: usize>(
    before: PersistenceWorker<S, BATCH>,
    after: PersistenceWorker<S, BATCH>,
    records: Seq<RecordView>,
    old_status: JournalStatus,
    new_status: JournalStatus,
    outcome: Result<usize, PersistError>,
) -> bool {
    let controlled = before.reader().controlled;
    let whole = before.sink().taken() + disk(records);
    let next = after.reader().expected_sequence;
    let flushing = before.policy() == FlushPolicy::EveryBatch;
    let tasks = batch_tasks(records, flushing);
    let end = progress_since(before.sink().calls(), after.sink().calls(), tasks);
    match outcome {
        Ok(count) => {
            &&& count == records.len()
            &&& end == all_done()
            &&& flushing && count > 0 ==> after.sink().durable() == after.sink().taken().len()
            &&& !after.poisoned()
            &&& after.reader().poisoned == before.reader().poisoned
            &&& after.sink().taken() == whole
            &&& before.sink().reliable() ==> after.sink().reliable()
            &&& new_status == batch_status(
                controlled,
                old_status,
                next,
                records.len(),
                tasks.len() as int,
            )
        },
        Err(error) => {
            &&& error is Io
            &&& records.len() > 0
            &&& !before.sink().reliable()
            &&& after.poisoned()
            &&& error->Io_0 != miscounted() ==> took_prefix(
                before.sink().taken(),
                disk(records),
                after.sink().taken(),
            )
            &&& end is Stopped
            &&& end->error == error->Io_0
            &&& new_status == poisoned_if(
                controlled,
                batch_status(
                    controlled,
                    old_status,
                    next,
                    records.len(),
                    tasks.len() - end->left.len(),
                ),
            )
            &&& end->left.len() == 1 && flushing ==> after.sink().taken() == whole
        },
    }
}

} // verus!
