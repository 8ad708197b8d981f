//! Durable storage behind the journal.

use vstd::prelude::*;

verus! {

/// What kind of failure a sink reports.
#[derive(Clone, Copy, Debug, PartialEq, Eq, Structural)]
pub enum StorageErrorKind {
    Interrupted,
    WriteZero,
    InvalidData,
    InvalidInput,
    Other,
}

/// A storage failure. `os_code` is the code of the operating system, where the
/// failure has one.
#[derive(Clone, Copy, Debug, PartialEq, Eq, Structural)]
pub struct StorageError {
    pub kind: StorageErrorKind,
    pub os_code: Option<i32>,
}

impl StorageError {
    pub open spec fn spec_of(kind: StorageErrorKind) -> StorageError {
        StorageError { kind, os_code: None }
    }

    /// A failure that no operating system reported.
    pub fn of(kind: StorageErrorKind) -> (error: StorageError)
        ensures
            error == StorageError::spec_of(kind),
    {
        StorageError { kind, os_code: None }
    }
}

/// One call of a sink, with its answer.
pub enum SinkCall {
    Write { offered: Seq<u8>, answer: Result<usize, StorageError> },
    Flush { answer: Result<(), StorageError> },
}

/// Storage that takes bytes in order.
pub trait DurableSink: Sized {
    /// Every call so far, in order.
    open spec fn calls(&self) -> Seq<SinkCall> {
        Seq::empty()
    }

    /// Every byte that the sink has taken, in order.
    open spec fn taken(&self) -> Seq<u8> {
        Seq::empty()
    }

    /// How many of the bytes are durable, from the first on.
    open spec fn durable(&self) -> nat {
        0
    }

    /// How many more times in a row the sink can report an interruption.
    open spec fn patience(&self) -> nat {
        0
    }

    /// The sink never fails and never declines a write.
    open spec fn reliable(&self) -> bool {
        false
    }

    /// Writes some bytes to the sink, and returns how many. A write that fails
    /// has taken none. Nothing is known of a sink that claims more bytes than it
    /// was given.
    fn write(&mut self, bytes: &[u8]) -> (outcome: Result<usize, StorageError>)
        ensures
            final(self).calls() == old(self).calls().push(
                SinkCall::Write { offered: bytes@, answer: outcome },
            ),
            outcome is Ok && outcome->Ok_0 <= bytes@.len()
                ==> final(self).taken() == old(self).taken() + bytes@.take(outcome->Ok_0 as int),
            outcome is Err ==> final(self).taken() == old(self).taken(),
            outcome is Err && outcome->Err_0.kind == StorageErrorKind::Interrupted
                ==> final(self).patience() < old(self).patience(),
            old(self).reliable() ==> final(self).reliable() && outcome is Ok && outcome->Ok_0
                <= bytes@.len() && (bytes@.len() > 0 ==> outcome->Ok_0 > 0),
    ;

    /// Makes all prior writes durable according to the sink contract.
    fn flush(&mut self) -> (outcome: Result<(), StorageError>)
        ensures
            final(self).calls() == old(self).calls().push(SinkCall::Flush { answer: outcome }),
            final(self).taken() == old(self).taken(),
            outcome is Ok ==> final(self).durable() == final(self).taken().len(),
            old(self).reliable() ==> final(self).reliable() && outcome is Ok,
    ;
}

/// What follows one call of [`DurableSink::write`].
#[derive(Clone, Copy, Debug, PartialEq, Eq, Structural)]
pub enum WriteStep {
    /// So many bytes are done.
    Advance(usize),
    /// The same bytes are written again.
    Retry,
    Fail(StorageError),
}

/// What follows a write that was given `remaining` bytes.
pub open spec fn write_step(remaining: nat, outcome: Result<usize, StorageError>) -> WriteStep {
    match outcome {
        Ok(count) => if count == 0 {
            WriteStep::Fail(StorageError::spec_of(StorageErrorKind::WriteZero))
        } else if count <= remaining {
            WriteStep::Advance(count)
        } else {
            WriteStep::Fail(StorageError::spec_of(StorageErrorKind::InvalidData))
        },
        Err(error) => if error.kind == StorageErrorKind::Interrupted {
            WriteStep::Retry
        } else {
            WriteStep::Fail(error)
        },
    }
}

/// Decides what follows a write that was given `remaining` bytes.
pub fn after_write(remaining: usize, outcome: Result<usize, StorageError>) -> (step: WriteStep)
    ensures
        step == write_step(remaining as nat, outcome),
{
    match outcome {
        Ok(count) => {
            if count == 0 {
                WriteStep::Fail(StorageError::of(StorageErrorKind::WriteZero))
            } else if count <= remaining {
                WriteStep::Advance(count)
            } else {
                WriteStep::Fail(StorageError::of(StorageErrorKind::InvalidData))
            }
        },
        Err(error) => {
            if error.kind == StorageErrorKind::Interrupted {
                WriteStep::Retry
            } else {
                WriteStep::Fail(error)
            }
        },
    }
}

/// What a sink is to do.
pub enum SinkTask {
    /// To take these bytes, which are at least one, in as many writes as it needs.
    Write(Seq<u8>),
    Flush,
}

/// How far a sink has come with its tasks.
pub enum SinkProgress {
    /// These tasks are left, the first of them perhaps in part.
    Left(Seq<SinkTask>),
    /// The first of the tasks that are left has failed.
    Stopped { error: StorageError, left: Seq<SinkTask> },
    /// Some call is none that the tasks ask for.
    Astray,
}

/// How far one call brings a sink. A write is offered exactly the bytes that are
/// not taken yet, an interrupted one is tried again, and a task comes only once
/// those before it are done.
pub open spec fn called(tasks: Seq<SinkTask>, call: SinkCall) -> SinkProgress {
    if tasks.len() == 0 {
        SinkProgress::Astray
    } else {
        match (tasks[0], call) {
            (SinkTask::Write(bytes), SinkCall::Write { offered, answer }) => if offered != bytes {
                SinkProgress::Astray
            } else {
                match write_step(bytes.len(), answer) {
                    WriteStep::Advance(count) => SinkProgress::Left(
                        if count == bytes.len() {
                            tasks.skip(1)
                        } else {
                            tasks.update(0, SinkTask::Write(bytes.skip(count as int)))
                        },
                    ),
                    WriteStep::Retry => SinkProgress::Left(tasks),
                    WriteStep::Fail(error) => SinkProgress::Stopped { error, left: tasks },
                }
            },
            (SinkTask::Flush, SinkCall::Flush { answer }) => match answer {
                Ok(()) => SinkProgress::Left(tasks.skip(1)),
                Err(error) => SinkProgress::Stopped { error, left: tasks },
            },
            _ => SinkProgress::Astray,
        }
    }
}

/// How far the calls bring a sink. Nothing is called behind a failure.
pub open spec fn progress(tasks: Seq<SinkTask>, calls: Seq<SinkCall>) -> SinkProgress
    decreases calls.len(),
{
    if calls.len() == 0 {
        SinkProgress::Left(tasks)
    } else {
        match progress(tasks, calls.drop_last()) {
            SinkProgress::Left(left) => called(left, calls.last()),
            _ => SinkProgress::Astray,
        }
    }
}

/// How far the calls since `before` bring a sink, where `after` goes on from there.
pub open spec fn progress_since(
    before: Seq<SinkCall>,
    after: Seq<SinkCall>,
    tasks: Seq<SinkTask>,
) -> SinkProgress {
    if before.is_prefix_of(after) {
        progress(tasks, after.skip(before.len() as int))
    } else {
        SinkProgress::Astray
    }
}

/// All the tasks are done.
pub open spec fn all_done() -> SinkProgress {
    SinkProgress::Left(Seq::empty())
}

/// The tasks of writing some bytes, or none.
pub open spec fn write_tasks(bytes: Seq<u8>) -> Seq<SinkTask> {
    if bytes.len() == 0 {
        Seq::empty()
    } else {
        seq![SinkTask::Write(bytes)]
    }
}

/// Calls leave no more tasks than there were, and a failure leaves its own.
pub proof fn lemma_progress_bounds(tasks: Seq<SinkTask>, calls: Seq<SinkCall>)
    ensures
        match progress(tasks, calls) {
            SinkProgress::Left(left) => left.len() <= tasks.len(),
            SinkProgress::Stopped { left, .. } => 0 < left.len() <= tasks.len(),
            SinkProgress::Astray => true,
        },
    decreases calls.len(),
{
    if calls.len() > 0 {
        lemma_progress_bounds(tasks, calls.drop_last());
    }
}

/// Tasks behind those at hand do not matter to the calls.
pub proof fn lemma_progress_more(
    tasks: Seq<SinkTask>,
    more: Seq<SinkTask>,
    calls: Seq<SinkCall>,
)
    requires
        !(progress(tasks, calls) is Astray),
    ensures
        progress(tasks + more, calls) == match progress(tasks, calls) {
            SinkProgress::Left(left) => SinkProgress::Left(left + more),
            SinkProgress::Stopped { error, left } => SinkProgress::Stopped {
                error,
                left: left + more,
            },
            SinkProgress::Astray => SinkProgress::Astray,
        },
    decreases calls.len(),
{
    if calls.len() > 0 {
        lemma_progress_more(tasks, more, calls.drop_last());
        let left = progress(tasks, calls.drop_last())->Left_0;
        assert((left + more)[0] == left[0]);
        assert((left + more).skip(1) =~= left.skip(1) + more);
        if let SinkTask::Write(bytes) = left[0] {
            assert forall|count: int| #[trigger]
                (left + more).update(0, SinkTask::Write(bytes.skip(count))) == left.update(
                    0,
                    SinkTask::Write(bytes.skip(count)),
                ) + more by {
                assert((left + more).update(0, SinkTask::Write(bytes.skip(count))) =~= left.update(
                    0,
                    SinkTask::Write(bytes.skip(count)),
                ) + more);
            }
        }
    }
}

/// Later calls go on with the tasks that earlier ones have left.
pub proof fn lemma_progress_then(
    tasks: Seq<SinkTask>,
    first: Seq<SinkCall>,
    second: Seq<SinkCall>,
)
    requires
        progress(tasks, first) is Left,
    ensures
        progress(tasks, first + second) == progress(progress(tasks, first)->Left_0, second),
    decreases second.len(),
{
    if second.len() == 0 {
        assert(first + second =~= first);
    } else {
        lemma_progress_then(tasks, first, second.drop_last());
        assert((first + second).drop_last() =~= first + second.drop_last());
    }
}

/// What the calls up to a point have done, and what the later calls do with the
/// tasks behind, they do together.
pub proof fn lemma_progress_since(
    start: Seq<SinkCall>,
    middle: Seq<SinkCall>,
    end: Seq<SinkCall>,
    tasks: Seq<SinkTask>,
    more: Seq<SinkTask>,
)
    requires
        progress_since(start, middle, tasks) == all_done(),
        middle.is_prefix_of(end),
    ensures
        progress_since(start, end, tasks + more) == progress_since(middle, end, more),
{
    let first = middle.skip(start.len() as int);
    let second = end.skip(middle.len() as int);
    lemma_progress_more(tasks, more, first);
    assert(Seq::<SinkTask>::empty() + more =~= more);
    lemma_progress_then(tasks + more, first, second);
    assert(end.skip(start.len() as int) =~= first + second);
    assert(start =~= end.take(start.len() as int)) by {
        assert(start =~= middle.take(start.len() as int));
        assert(middle =~= end.take(middle.len() as int));
    }
}

/// `after` is `before` with some of `bytes`, from the first on, behind it.
pub open spec fn took_prefix(before: Seq<u8>, bytes: Seq<u8>, after: Seq<u8>) -> bool {
    exists|count: int|
        0 <= count <= bytes.len() && after == before + #[trigger] bytes.take(count)
}

/// The error of a sink that claims more bytes than it was given.
pub open spec fn miscounted() -> StorageError {
    StorageError::spec_of(StorageErrorKind::InvalidData)
}

/// Writes all the bytes, as often as the sink takes only some of them or is
/// interrupted. It returns the first failure as it came, and writes nothing more.
pub fn write_all<S: DurableSink>(sink: &mut S, bytes: &[u8]) -> (outcome: Result<(), StorageError>)
    ensures
        ({
            let end = progress_since(
                old(sink).calls(),
                final(sink).calls(),
                write_tasks(bytes@),
            );
            match outcome {
                Ok(()) => end == all_done(),
                Err(error) => end is Stopped && end->error == error,
            }
        }),
        outcome is Ok ==> final(sink).taken() == old(sink).taken() + bytes@,
        outcome is Err ==> outcome->Err_0.kind != StorageErrorKind::Interrupted,
        outcome is Err && outcome->Err_0 != miscounted() ==> took_prefix(
            old(sink).taken(),
            bytes@,
            final(sink).taken(),
        ),
        bytes@.len() == 0 ==> outcome is Ok,
        old(sink).reliable() ==> outcome is Ok && final(sink).reliable(),
{
    let ghost before = sink.taken();
    let ghost trusted = sink.reliable();
    let ghost calls = sink.calls();
    let ghost mut made: Seq<SinkCall> = Seq::empty();
    let mut done: usize = 0;
    assert(calls + made =~= calls);
    assert(bytes@.skip(0) =~= bytes@);
    assert(before =~= before + bytes@.take(0));
    while done < bytes.len()
        invariant
            done <= bytes@.len(),
            sink.taken() == before + bytes@.take(done as int),
            before == old(sink).taken(),
            trusted == old(sink).reliable(),
            trusted ==> sink.reliable(),
            calls == old(sink).calls(),
            sink.calls() == calls + made,
            progress(write_tasks(bytes@), made) == SinkProgress::Left(
                write_tasks(bytes@.skip(done as int)),
            ),
        decreases bytes@.len() - done, sink.patience(),
    {
        let rest = vstd::slice::slice_subrange(bytes, done, bytes.len());
        let answer = sink.write(rest);
        proof {
            let call = SinkCall::Write { offered: rest@, answer };
            let left = write_tasks(rest@);
            assert(rest@ =~= bytes@.skip(done as int));
            assert(made.push(call).drop_last() =~= made);
            assert(calls + made.push(call) =~= (calls + made).push(call));
            assert((calls + made.push(call)).skip(calls.len() as int) =~= made.push(call));
            made = made.push(call);
            assert(progress(write_tasks(bytes@), made) == called(left, call));
        }
        match after_write(rest.len(), answer) {
            WriteStep::Advance(count) => {
                proof {
                    assert(bytes@.take(done as int) + rest@.take(count as int) =~= bytes@.take(
                        done + count,
                    ));
                    assert(sink.taken() =~= before + bytes@.take(done + count));
                    assert(rest@.skip(count as int) =~= bytes@.skip(done + count));
                    assert(write_tasks(rest@).skip(1) =~= Seq::<SinkTask>::empty());
                    assert(write_tasks(rest@).update(
                        0,
                        SinkTask::Write(rest@.skip(count as int)),
                    ) =~= seq![SinkTask::Write(rest@.skip(count as int))]);
                }
                done = done + count;
            },
            WriteStep::Retry => {},
            WriteStep::Fail(error) => {
                proof {
                    if error != miscounted() {
                        assert(rest@.take(0) =~= Seq::<u8>::empty());
                        assert(sink.taken() =~= before + bytes@.take(done as int));
                    }
                }
                return Err(error);
            },
        }
    }
    assert(bytes@.take(done as int) =~= bytes@);
    assert((calls + made).skip(calls.len() as int) =~= made);
    Ok(())
}

/// A sink in memory.
pub struct MemorySink {
    bytes: Vec<u8>,
    calls: Ghost<Seq<SinkCall>>,
    durable: Ghost<nat>,
}

impl MemorySink {
    pub fn new() -> (sink: Self)
        ensures
            sink.taken() == Seq::<u8>::empty(),
            sink.calls() == Seq::<SinkCall>::empty(),
            sink.durable() == 0,
            sink.reliable(),
    {
        MemorySink { bytes: Vec::new(), calls: Ghost(Seq::empty()), durable: Ghost(0) }
    }

    pub fn bytes(&self) -> (bytes: &[u8])
        ensures
            bytes@ == self.taken(),
    {
        self.bytes.as_slice()
    }
}

impl DurableSink for MemorySink {
    closed spec fn calls(&self) -> Seq<SinkCall> {
        self.calls@
    }

    closed spec fn durable(&self) -> nat {
        self.durable@
    }

    closed spec fn taken(&self) -> Seq<u8> {
        self.bytes@
    }

    closed spec fn patience(&self) -> nat {
        0
    }

    closed spec fn reliable(&self) -> bool {
        true
    }

    fn write(&mut self, bytes: &[u8]) -> (outcome: Result<usize, StorageError>)
        ensures
            outcome == Ok::<usize, StorageError>(bytes@.len() as usize),
    {
        let ghost before = self.bytes@;
        let mut index: usize = 0;
        while index < bytes.len()
            invariant
                index <= bytes@.len(),
                self.bytes@ == before + bytes@.take(index as int),
                self.calls == old(self).calls,
            decreases bytes@.len() - index,
        {
            self.bytes.push(bytes[index]);
            proof {
                assert(bytes@.take(index + 1) =~= bytes@.take(index as int).push(
                    bytes@[index as int],
                ));
            }
            index = index + 1;
        }
        let outcome = Ok(bytes.len());
        self.calls = Ghost(
            self.calls@.push(SinkCall::Write { offered: bytes@, answer: outcome }),
        );
        outcome
    }

    fn flush(&mut self) -> (outcome: Result<(), StorageError>)
        ensures
            outcome is Ok,
    {
        let outcome = Ok(());
        self.calls = Ghost(self.calls@.push(SinkCall::Flush { answer: outcome }));
        self.durable = Ghost(self.bytes@.len());
        outcome
    }
}

} // verus!
