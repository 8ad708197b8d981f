//! The disk format byte by byte, and what a journal refuses.

use vstd::prelude::*;

use crate::journal::bytes::{join16, join32, join64, read16, read32, read64};
use crate::journal::channel::{JournalStatus, ReadError, ReaderView, WriterView};
use crate::journal::record::{
    crc32c_of, decode_fault, law_encode_undoes_decode, law_fields_of_encoded, RecordView,
};
use crate::journal::recovery::{read_step, ReadStep, Recovery, RecoveryError};
use crate::journal::sink::{
    all_done, called, progress, write_step, DurableSink, SinkCall, SinkTask, StorageError,
    StorageErrorKind, WriteStep,
};
use crate::journal::worker::{
    batch_tasks, disk, record_tasks, stored, FlushPolicy, PersistenceWorker,
};
use crate::journal::{DecodeError, JournalError};
use crate::types::SequenceNumber;

verus! {

/// The number that two bytes hold, most significant first.
pub open spec fn number16(bytes: Seq<u8>, at: int) -> int {
    bytes[at] * 0x100 + bytes[at + 1]
}

/// The number that four bytes hold, most significant first.
pub open spec fn number32(bytes: Seq<u8>, at: int) -> int {
    number16(bytes, at) * 0x1_0000 + number16(bytes, at + 2)
}

/// The number that eight bytes hold, most significant first.
pub open spec fn number64(bytes: Seq<u8>, at: int) -> int {
    number32(bytes, at) * 0x1_0000_0000 + number32(bytes, at + 4)
}

proof fn lemma_value16(b0: u8, b1: u8)
    by (bit_vector)
    ensures
        join16(b0, b1) == b0 * 0x100 + b1,
{
}

proof fn lemma_value32(b0: u8, b1: u8, b2: u8, b3: u8)
    by (bit_vector)
    ensures
        join32(b0, b1, b2, b3) == (b0 * 0x100 + b1) * 0x1_0000 + (b2 * 0x100 + b3),
{
}

proof fn lemma_value64(b0: u8, b1: u8, b2: u8, b3: u8, b4: u8, b5: u8, b6: u8, b7: u8)
    by (bit_vector)
    ensures
        join64(b0, b1, b2, b3, b4, b5, b6, b7) == ((b0 * 0x100 + b1) * 0x1_0000 + (b2 * 0x100
            + b3)) * 0x1_0000_0000 + ((b4 * 0x100 + b5) * 0x1_0000 + (b6 * 0x100 + b7)),
{
}

proof fn lemma_numbers(bytes: Seq<u8>, at: int)
    ensures
        read16(bytes, at) == number16(bytes, at),
        read32(bytes, at) == number32(bytes, at),
        read64(bytes, at) == number64(bytes, at),
{
    lemma_value16(bytes[at], bytes[at + 1]);
    lemma_value32(bytes[at], bytes[at + 1], bytes[at + 2], bytes[at + 3]);
    lemma_value64(
        bytes[at],
        bytes[at + 1],
        bytes[at + 2],
        bytes[at + 3],
        bytes[at + 4],
        bytes[at + 5],
        bytes[at + 6],
        bytes[at + 7],
    );
}

/// The bytes with zeros in the place of the checksum.
pub open spec fn without_checksum(bytes: Seq<u8>) -> Seq<u8> {
    bytes.update(14, 0).update(15, 0).update(16, 0).update(17, 0)
}

proof fn lemma_zero_checksum(record: RecordView)
    requires
        record.payload.len() == 46,
    ensures
        record.checked_bytes() == without_checksum(record.encoded()),
{
    assert((0u32 >> 24) as u8 == 0 && (0u32 >> 16) as u8 == 0 && (0u32 >> 8) as u8 == 0
        && 0u32 as u8 == 0) by (bit_vector);
    assert(record.checked_bytes() =~= without_checksum(record.encoded()));
}

/// The disk form of a record, byte by byte: the magic number, version one, no flags,
/// the sequence, the length of the payload and the checksum, numbers most significant
/// byte first; then the payload, and zeros to the end. The checksum is that of the
/// whole form with zeros in its place.
pub proof fn law_disk_form(sequence: SequenceNumber, payload: Seq<u8>)
    requires
        payload.len() <= 46,
    ensures
        ({
            let form = RecordView::sealed(sequence, payload).encoded();
            &&& form.len() == 64
            &&& form[0] == 0x4a
            &&& form[1] == 0x52
            &&& form[2] == 1
            &&& form[3] == 0
            &&& number64(form, 4) == sequence.0
            &&& number16(form, 12) == payload.len()
            &&& number32(form, 14) == crc32c_of(without_checksum(form))
            &&& form.subrange(18, 18int + payload.len()) == payload
            &&& forall|i: int| 18 + payload.len() <= i < 64 ==> #[trigger] form[i] == 0
        }),
{
    let record = RecordView::sealed(sequence, payload);
    let form = record.encoded();
    assert(record.payload.len() == 46);
    law_fields_of_encoded(record);
    lemma_numbers(form, 0);
    lemma_numbers(form, 4);
    lemma_numbers(form, 12);
    lemma_numbers(form, 14);
    lemma_zero_checksum(record);
    assert(record.checked_bytes() == RecordView::blank(sequence, payload).checked_bytes());
    assert((0x4a52u16 >> 8) as u8 == 0x4a && 0x4a52u16 as u8 == 0x52) by (bit_vector);
    assert(form.subrange(18, 18int + payload.len()) =~= payload);
}

/// What is wrong with 64 bytes that are read as a record, each fault with its cause:
/// the first of the causes that holds. Bytes without one are the disk form of exactly
/// one record, whose checksum fits.
pub proof fn law_decode_faults(form: Seq<u8>)
    requires
        form.len() == 64,
    ensures
        ({
            let fault = decode_fault(form);
            let magic = form[0] == 0x4a && form[1] == 0x52;
            let version = magic && form[2] == 1;
            let flags = version && form[3] == 0;
            let length = flags && number16(form, 12) <= 46;
            let fits = number32(form, 14) == crc32c_of(without_checksum(form));
            &&& !magic <==> fault is Some && fault->0 is BadMagic
            &&& !magic ==> fault->0->BadMagic_found == number16(form, 0)
            &&& magic && !version <==> fault is Some && fault->0 is UnsupportedVersion
            &&& magic && !version ==> fault == Some(
                DecodeError::UnsupportedVersion { found: form[2] },
            )
            &&& version && !flags <==> fault is Some && fault->0 is UnsupportedFlags
            &&& version && !flags ==> fault == Some(
                DecodeError::UnsupportedFlags { found: form[3] },
            )
            &&& flags && !length <==> fault is Some && fault->0 is PayloadLength
            &&& flags && !length ==> fault->0->PayloadLength_found == number16(form, 12)
            &&& length && !fits <==> fault is Some && fault->0 is ChecksumMismatch
            &&& length && !fits ==> fault->0->ChecksumMismatch_sequence.0 == number64(form, 4)
            &&& length && fits <==> fault is None
        }),
{
    let record = RecordView::fields(form);
    law_encode_undoes_decode(form);
    assert(record.payload.len() == 46);
    lemma_zero_checksum(record);
    lemma_numbers(form, 0);
    lemma_numbers(form, 4);
    lemma_numbers(form, 12);
    lemma_numbers(form, 14);
}

/// The record that 64 bytes hold: the sequence and the payload that the format says.
pub proof fn law_decoded_fields(form: Seq<u8>)
    requires
        form.len() == 64,
        decode_fault(form) is None,
    ensures
        RecordView::fields(form).sequence.0 == number64(form, 4),
        RecordView::fields(form).content() == form.subrange(18, 18 + number16(form, 12)),
        RecordView::fields(form).verified(),
{
    law_decode_faults(form);
    lemma_numbers(form, 4);
    lemma_numbers(form, 12);
    assert(RecordView::fields(form).content() =~= form.subrange(18, 18 + number16(form, 12)));
}

/// A record verifies exactly when its disk form decodes.
pub proof fn law_verified_is_decodable(record: RecordView)
    requires
        record.payload.len() == 46,
    ensures
        record.verified() <==> decode_fault(record.encoded()) is None,
{
    law_fields_of_encoded(record);
}

/// Why a payload is not enqueued, each reason with its cause: the last sequence is
/// never given away, a payload has up to 46 bytes, and 1024 records fill the queue.
pub proof fn law_enqueue_refusals(writer: WriterView, queued: nat, payload: Seq<u8>)
    requires
        queued <= 1024,
        payload.len() <= usize::MAX,
    ensures
        ({
            let refusal = writer.refusal(queued, payload);
            let last = writer.next_sequence == u64::MAX;
            &&& last <==> refusal == Some(JournalError::SequenceOverflow)
            &&& !last && payload.len() > 46 <==> refusal == Some(
                JournalError::PayloadTooLarge { len: payload.len() as usize },
            )
            &&& !last && payload.len() <= 46 && queued == 1024 <==> refusal == Some(
                JournalError::Saturated,
            )
            &&& !last && payload.len() <= 46 && queued < 1024 <==> refusal is None
        }),
{
}

/// Why a reader gives no record, each reason with its cause. A record that is not in
/// its turn or does not verify ends the reader; an empty queue does not.
pub proof fn law_read_faults(reader: ReaderView, records: Seq<RecordView>)
    ensures
        ({
            let fault = reader.fault(records);
            let some = !reader.poisoned && records.len() > 0;
            let valid = some && records[0].verified();
            let next = valid && records[0].sequence.0 == reader.expected_sequence;
            let last = reader.expected_sequence == u64::MAX;
            &&& !reader.poisoned && records.len() == 0 <==> fault == Some(ReadError::Empty)
            &&& some && !valid <==> fault is Some && fault->0 is ChecksumMismatch
            &&& some && !valid ==> fault->0->ChecksumMismatch_sequence == records[0].sequence
            &&& valid && !next <==> fault is Some && fault->0 is SequenceMismatch
            &&& valid && !next ==> {
                &&& fault->0->expected.0 == reader.expected_sequence
                &&& fault->0->received == records[0].sequence
            }
            &&& reader.poisoned || (next && last) <==> fault == Some(ReadError::Poisoned)
            &&& next && !last <==> fault is None
            &&& reader.fails(records) <==> some && !(next && !last)
        }),
{
}

/// What one batch takes: records that verify and follow each other in sequence, as
/// many as fit. It stops short only where the queue ends, or where the next record
/// does not verify or is not in its turn; that record alone goes with the batch, and
/// its fault is told.
pub proof fn law_batch_takes_valid_records(
    reader: ReaderView,
    records: Seq<RecordView>,
    limit: nat,
)
    requires
        !reader.poisoned,
    ensures
        ({
            let count = reader.batch(records, limit) as int;
            let fault = reader.batch_fault(records, limit);
            let valid = |i: int|
                {
                    &&& records[i].verified()
                    &&& records[i].sequence.0 == reader.expected_sequence + i
                    &&& reader.expected_sequence + i < u64::MAX
                };
            &&& count <= limit
            &&& count <= records.len()
            &&& forall|i: int|
                0 <= i < count ==> {
                    &&& (#[trigger] records[i]).verified()
                    &&& records[i].sequence.0 == reader.expected_sequence + i
                }
            &&& count < limit && count < records.len() ==> !valid(count)
            &&& fault is Some <==> count < limit && count < records.len()
            &&& fault is None ==> reader.batch_rest(records, limit) == records.skip(count)
            &&& fault is Some ==> reader.batch_rest(records, limit) == records.skip(count + 1)
            &&& fault is Some && !records[count].verified() ==> fault == Some(
                ReadError::ChecksumMismatch { sequence: records[count].sequence },
            )
            &&& fault is Some && records[count].verified() && records[count].sequence.0
                != reader.expected_sequence + count ==> fault == Some(
                ReadError::SequenceMismatch {
                    expected: SequenceNumber((reader.expected_sequence + count) as u64),
                    received: records[count].sequence,
                },
            )
        }),
{
    let count = reader.batch(records, limit);
    reader.lemma_run(records, limit, 0);
    assert forall|i: int| 0 <= i < count implies {
        &&& (#[trigger] records[i]).verified()
        &&& records[i].sequence.0 == reader.expected_sequence + i
    } by {
        reader.lemma_run_valid(records, limit, 0, i as nat);
        assert(records.skip(i)[0] == records[i]);
    }
    lemma_run_stops(reader, records, limit, 0);
    if count < records.len() {
        assert(records.skip(count as int)[0] == records[count as int]);
    } else {
        assert(records.skip(count as int).len() == 0);
    }
}

proof fn lemma_run_stops(reader: ReaderView, records: Seq<RecordView>, limit: nat, from: nat)
    requires
        from <= limit,
    ensures
        ({
            let stop = reader.run(records, limit, from);
            stop < limit ==> reader.fault_after(records, stop) is Some
        }),
    decreases limit - from,
{
    if from < limit && reader.fault_after(records, from) is None {
        lemma_run_stops(reader, records, limit, from + 1);
    }
}

/// What follows a write: a write of nothing and one that claims too much are failures,
/// an interrupted one is tried again, and any other advances by what it took.
pub proof fn law_write_steps(remaining: nat, outcome: Result<usize, StorageError>)
    ensures
        ({
            let step = write_step(remaining, outcome);
            match outcome {
                Ok(count) => if 0 < count <= remaining {
                    step == WriteStep::Advance(count)
                } else {
                    &&& step is Fail
                    &&& step->Fail_0.os_code is None
                    &&& count == 0 ==> step->Fail_0.kind == StorageErrorKind::WriteZero
                    &&& count > remaining && count > 0 ==> step->Fail_0.kind
                        == StorageErrorKind::InvalidData
                },
                Err(error) => match error.kind {
                    StorageErrorKind::Interrupted => step == WriteStep::Retry,
                    _ => step == WriteStep::Fail(error),
                },
            }
        }),
{
}

/// What follows a read: one of nothing ends the journal, an interrupted one is tried
/// again, and any other adds what it gave.
pub proof fn law_read_steps(filled: nat, outcome: Result<usize, StorageError>)
    requires
        outcome is Ok ==> filled + outcome->Ok_0 <= 64,
    ensures
        ({
            let step = read_step(filled, outcome);
            match outcome {
                Ok(count) => if count == 0 {
                    step == ReadStep::Finish
                } else {
                    step is Filled && step->Filled_0 == filled + count
                },
                Err(error) => match error.kind {
                    StorageErrorKind::Interrupted => step == ReadStep::Retry,
                    _ => step == ReadStep::Fail(RecoveryError::Io(error)),
                },
            }
        }),
{
}

/// The `i`-th disk form of a journal.
pub open spec fn form_at(bytes: Seq<u8>, i: int) -> Seq<u8> {
    bytes.subrange(i * 64, i * 64 + 64)
}

/// Recovery accepts a journal exactly when it is made of whole disk forms that all
/// decode and whose sequences run on from the first one, short of the last sequence.
/// It answers with how many there are, and with the sequence behind them.
pub proof fn law_recovery_accepts_whole_journals(start: Recovery, bytes: Seq<u8>)
    requires
        start.records + bytes.len() / 64 <= u64::MAX,
    ensures
        ({
            let count = bytes.len() as int / 64;
            let whole = {
                &&& bytes.len() % 64 == 0
                &&& start.next_sequence + count <= u64::MAX
                &&& forall|i: int|
                    0 <= i < count ==> {
                        &&& decode_fault(#[trigger] form_at(bytes, i)) is None
                        &&& number64(form_at(bytes, i), 4) == start.next_sequence + i
                    }
            };
            &&& start.scanned(bytes) is Ok <==> whole
            &&& start.scanned(bytes) is Ok ==> {
                &&& start.scanned(bytes)->Ok_0.records == start.records + count
                &&& start.scanned(bytes)->Ok_0.next_sequence == start.next_sequence + count
            }
        }),
    decreases bytes.len(),
{
    let count = bytes.len() as int / 64;
    if 64 <= bytes.len() {
        let first = bytes.take(64);
        let rest = bytes.skip(64);
        assert(form_at(bytes, 0) =~= first);
        lemma_numbers(first, 4);
        assert forall|i: int| 0 <= i < count - 1 implies #[trigger] form_at(rest, i) == form_at(
            bytes,
            i + 1,
        ) by {
            assert(form_at(rest, i) =~= form_at(bytes, i + 1));
        }
        if start.fault(first) is None {
            let next = start.next();
            law_recovery_accepts_whole_journals(next, rest);
            assert(start.scanned(bytes) == next.scanned(rest));
            if next.scanned(rest) is Ok {
                assert forall|i: int| 0 <= i < count implies {
                    &&& decode_fault(#[trigger] form_at(bytes, i)) is None
                    &&& number64(form_at(bytes, i), 4) == start.next_sequence + i
                } by {
                    if i > 0 {
                        assert(form_at(rest, i - 1) == form_at(bytes, i));
                    }
                }
            } else {
                assert(!(bytes.len() % 64 == 0 && start.next_sequence + count <= u64::MAX
                    && forall|i: int|
                    0 <= i < count ==> {
                        &&& decode_fault(#[trigger] form_at(bytes, i)) is None
                        &&& number64(form_at(bytes, i), 4) == start.next_sequence + i
                    })) by {
                    if bytes.len() % 64 == 0 && start.next_sequence + count <= u64::MAX {
                        let bad = choose|i: int|
                            0 <= i < count - 1 && !({
                                &&& decode_fault(#[trigger] form_at(rest, i)) is None
                                &&& number64(form_at(rest, i), 4) == next.next_sequence + i
                            });
                        assert(form_at(bytes, bad + 1) == form_at(rest, bad));
                    }
                }
            }
        } else {
            assert(start.scanned(bytes) is Err);
            assert(decode_fault(form_at(bytes, 0)) is Some || number64(form_at(bytes, 0), 4)
                != start.next_sequence || start.next_sequence + count > u64::MAX);
        }
    }
}

/// Where recovery stops, and why: at a disk form that is cut off, at one that does not
/// decode, or at one whose sequence is not the next.
pub proof fn law_recovery_faults(scan: Recovery, form: Seq<u8>)
    requires
        form.len() == 64,
    ensures
        ({
            let fault = scan.fault(form);
            let sound = decode_fault(form) is None;
            let turn = sound && number64(form, 4) == scan.next_sequence;
            &&& !sound <==> fault is Some && fault->0 is Decode
            &&& !sound && scan.records * 64 <= u64::MAX ==> fault->0->offset == scan.records * 64
            &&& !sound ==> fault->0->source == decode_fault(form)->0
            &&& sound && !turn <==> fault is Some && fault->0 is Sequence
            &&& sound && !turn ==> {
                &&& fault->0->expected.0 == scan.next_sequence
                &&& fault->0->received.0 == number64(form, 4)
            }
            &&& turn && (scan.next_sequence == u64::MAX || scan.records == u64::MAX) <==> fault
                == Some(RecoveryError::SequenceOverflow)
            &&& turn && scan.next_sequence < u64::MAX && scan.records < u64::MAX <==> fault is None
        }),
{
    lemma_numbers(form, 4);
}

proof fn lemma_only_writes(tasks: Seq<SinkTask>, calls: Seq<SinkCall>)
    requires
        forall|i: int| 0 <= i < tasks.len() ==> (#[trigger] tasks[i]) is Write,
        progress(tasks, calls) is Left,
    ensures
        forall|j: int| 0 <= j < calls.len() ==> (#[trigger] calls[j]) is Write,
        forall|i: int|
            0 <= i < progress(tasks, calls)->Left_0.len() ==> (
            #[trigger] progress(tasks, calls)->Left_0[i]) is Write,
    decreases calls.len(),
{
    if calls.len() > 0 {
        let init = calls.drop_last();
        lemma_only_writes(tasks, init);
        let left = progress(tasks, init)->Left_0;
        let next = progress(tasks, calls)->Left_0;
        assert(called(left, calls.last()) is Left);
        assert forall|i: int| 0 <= i < next.len() implies (#[trigger] next[i]) is Write by {
            if next.len() < left.len() {
                assert(next[i] == left[i + 1]);
            }
        }
        assert forall|j: int| 0 <= j < calls.len() implies (#[trigger] calls[j]) is Write by {
            if j < init.len() {
                assert(init[j] == calls[j]);
            } else {
                assert(left[0] is Write);
            }
        }
    }
}

proof fn lemma_flush_is_last(tasks: Seq<SinkTask>, calls: Seq<SinkCall>)
    requires
        tasks.len() > 0,
        tasks.last() is Flush,
        progress(tasks, calls) is Left,
    ensures
        ({
            let left = progress(tasks, calls)->Left_0;
            &&& left.len() > 0 ==> left.last() is Flush
            &&& left.len() == 0 ==> calls.len() > 0 && calls.last() == (SinkCall::Flush {
                answer: Ok(()),
            })
        }),
    decreases calls.len(),
{
    if calls.len() > 0 {
        lemma_flush_is_last(tasks, calls.drop_last());
        let left = progress(tasks, calls.drop_last())->Left_0;
        let next = progress(tasks, calls)->Left_0;
        assert(called(left, calls.last()) is Left);
        assert(left.len() > 0);
        if left.len() > 1 {
            assert(next.len() > 0);
            assert(next.last() == left.last());
        } else {
            assert(left[0] is Flush);
            match calls.last() {
                SinkCall::Flush { answer } => {
                    assert(answer is Ok);
                    assert(answer->Ok_0 == ());
                },
                SinkCall::Write { offered, answer } => {},
            }
        }
    }
}

/// A batch that a worker has stored: the sink has taken the disk forms of all its
/// records, in order, and the worker goes on. Where every batch is flushed, the last
/// call was a flush, and the durable watermark stands behind the batch; otherwise no
/// call was a flush, and the durable watermark has not moved. The written watermark
/// stands behind the batch either way.
pub proof fn law_stored_batch_is_published<S: DurableSink, const BATCH: usize>(
    before: PersistenceWorker<S, BATCH>,
    after: PersistenceWorker<S, BATCH>,
    records: Seq<RecordView>,
    old_status: JournalStatus,
    new_status: JournalStatus,
    count: usize,
)
    requires
        stored(before, after, records, old_status, new_status, Ok(count)),
        records.len() > 0,
        before.reader().controlled,
    ensures
        count == records.len(),
        !after.poisoned(),
        after.reader().poisoned == before.reader().poisoned,
        after.sink().taken() == before.sink().taken() + disk(records),
        new_status.next_written_sequence == after.reader().expected_sequence,
        new_status.poisoned == old_status.poisoned,
        new_status.producer_closed == old_status.producer_closed,
        new_status.shutdown_complete == old_status.shutdown_complete,
        match before.policy() {
            FlushPolicy::EveryBatch => {
                &&& new_status.next_durable_sequence == after.reader().expected_sequence
                &&& after.sink().durable() == after.sink().taken().len()
                &&& after.sink().calls().len() > before.sink().calls().len()
                &&& after.sink().calls().last() == (SinkCall::Flush { answer: Ok(()) })
            },
            FlushPolicy::OnShutdown => {
                &&& new_status.next_durable_sequence == old_status.next_durable_sequence
                &&& forall|j: int|
                    before.sink().calls().len() <= j < after.sink().calls().len() ==> (
                    #[trigger] after.sink().calls()[j]) is Write
            },
        },
{
    let tasks = batch_tasks(records, before.policy() == FlushPolicy::EveryBatch);
    let start = before.sink().calls().len() as int;
    let calls = after.sink().calls().skip(start);
    assert(progress(tasks, calls) == all_done());
    match before.policy() {
        FlushPolicy::EveryBatch => {
            assert(tasks.last() is Flush);
            lemma_flush_is_last(tasks, calls);
        },
        FlushPolicy::OnShutdown => {
            assert(tasks =~= record_tasks(records));
            lemma_only_writes(tasks, calls);
            assert forall|j: int| start <= j < after.sink().calls().len() implies (
            #[trigger] after.sink().calls()[j]) is Write by {
                assert(calls[j - start] == after.sink().calls()[j]);
            }
        },
    }
}

} // verus!
