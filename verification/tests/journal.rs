use hft::journal::channel::{
    JournalChannel, JournalReader, JournalStatus, JournalWriter, ReadError,
};
use hft::journal::record::{record_checksum, JournalRecord};
use hft::journal::recovery::{after_read, recover, ReadStep, Recovery, RecoveryError};
use hft::journal::sink::{
    after_write, write_all, DurableSink, MemorySink, StorageError, StorageErrorKind, WriteStep,
};
use hft::journal::worker::{FlushPolicy, PersistError, PersistenceWorker};
use hft::journal::{DecodeError, JournalError, RECORD_SIZE, RING_CAPACITY};
use hft::types::SequenceNumber;

fn payload(id: u64) -> [u8; 46] {
    let mut bytes = [0_u8; 46];
    bytes[..8].copy_from_slice(&id.to_be_bytes());
    bytes
}

#[derive(Default)]
struct FaultSink {
    bytes: Vec<u8>,
    max_write: usize,
    interrupts_remaining: usize,
    fail_after: Option<usize>,
    flushes: usize,
    fail_flush: bool,
    fail_flush_on: Option<usize>,
    writes: usize,
}

impl DurableSink for FaultSink {
    fn write(&mut self, bytes: &[u8]) -> Result<usize, StorageError> {
        self.writes += 1;
        if self.interrupts_remaining != 0 {
            self.interrupts_remaining -= 1;
            return Err(StorageError::of(StorageErrorKind::Interrupted));
        }
        if self
            .fail_after
            .is_some_and(|limit| self.bytes.len() >= limit)
        {
            return Err(StorageError::of(StorageErrorKind::Other));
        }
        let count = bytes.len().min(self.max_write.max(1));
        self.bytes.extend_from_slice(&bytes[..count]);
        Ok(count)
    }

    fn flush(&mut self) -> Result<(), StorageError> {
        if self.fail_flush {
            return Err(StorageError::of(StorageErrorKind::Other));
        }
        self.flushes += 1;
        if self.fail_flush_on == Some(self.flushes) {
            return Err(StorageError::of(StorageErrorKind::Other));
        }
        Ok(())
    }
}

fn initial_status(first_sequence: u64) -> JournalStatus {
    JournalStatus {
        next_written_sequence: first_sequence,
        next_durable_sequence: first_sequence,
        producer_closed: false,
        poisoned: false,
        shutdown_complete: false,
    }
}

#[test]
fn encoding_is_stable_and_rejects_bad_fields() {
    assert_eq!(record_checksum(b"123456789"), 0xe306_9283);
    let record = JournalRecord::new(SequenceNumber(9), b"abc").expect("valid record");
    let bytes = record.encode();
    assert_eq!(bytes.len(), RECORD_SIZE);
    assert_eq!(&bytes[0..4], &[0x4a, 0x52, 1, 0]);
    assert_eq!(&bytes[4..12], &9_u64.to_be_bytes());
    assert_eq!(&bytes[12..14], &3_u16.to_be_bytes());
    assert_eq!(JournalRecord::decode(&bytes), Ok(record));

    let mut bad_version = bytes;
    bad_version[2] = 2;
    assert!(matches!(
        JournalRecord::decode(&bad_version),
        Err(DecodeError::UnsupportedVersion { found: 2 })
    ));
    let mut bad_len = bytes;
    bad_len[12..14].copy_from_slice(&47_u16.to_be_bytes());
    assert!(matches!(
        JournalRecord::decode(&bad_len),
        Err(DecodeError::PayloadLength { found: 47 })
    ));
    let mut corrupt = bytes;
    corrupt[20] ^= 1;
    assert!(matches!(
        JournalRecord::decode(&corrupt),
        Err(DecodeError::ChecksumMismatch { .. })
    ));
}

#[test]
fn decode_reports_each_field_fault() {
    let bytes = JournalRecord::new(SequenceNumber(9), b"abc")
        .expect("valid record")
        .encode();
    let mut magic = bytes;
    magic[0] = 0;
    assert_eq!(
        JournalRecord::decode(&magic),
        Err(DecodeError::BadMagic { found: 0x0052 })
    );
    let mut flags = bytes;
    flags[3] = 4;
    assert_eq!(
        JournalRecord::decode(&flags),
        Err(DecodeError::UnsupportedFlags { found: 4 })
    );
    let mut checksum = bytes;
    checksum[17] ^= 1;
    assert_eq!(
        JournalRecord::decode(&checksum),
        Err(DecodeError::ChecksumMismatch {
            sequence: SequenceNumber(9)
        })
    );
}

#[test]
fn decode_with_compares_the_given_checksum() {
    let blank = JournalRecord::blank(SequenceNumber(3), b"xyz").expect("record");
    let bytes = blank.with_checksum(77).encode();
    assert_eq!(
        JournalRecord::decode_with(&bytes, 77),
        Ok(blank.with_checksum(77))
    );
    assert_eq!(
        JournalRecord::decode_with(&bytes, 78),
        Err(DecodeError::ChecksumMismatch {
            sequence: SequenceNumber(3)
        })
    );
    assert_eq!(blank.slice(), Some(b"xyz".as_slice()));
}

#[test]
fn shutdown_requires_closed_producer_and_drains_tail() {
    let mut channel = JournalChannel::try_new().expect("channel");
    let (mut writer, reader) = channel.split(1);
    writer.enqueue(&mut channel, b"one").expect("enqueue");
    let sink = FaultSink {
        max_write: RECORD_SIZE,
        ..FaultSink::default()
    };
    let mut worker =
        PersistenceWorker::<_, 4>::new(reader, sink, FlushPolicy::OnShutdown, &mut channel)
            .expect("worker");
    assert!(matches!(
        worker.shutdown(&mut channel),
        Err(PersistError::ProducerOpen)
    ));
    writer
        .enqueue(&mut channel, b"two")
        .expect("enqueue after refusal");
    writer.close(&mut channel);
    worker.shutdown(&mut channel).expect("shutdown");
    let sink = worker.into_sink(&mut channel).expect("healthy");
    assert_eq!(sink.flushes, 1);
    assert_eq!(sink.bytes.len(), 2 * RECORD_SIZE);
}

#[test]
fn concurrent_close_and_shutdown_persist_every_record() {
    const RECORDS: usize = 10_000;
    let record_count = u64::try_from(RECORDS).expect("record count fits");
    let mut channel = JournalChannel::try_new().expect("channel");
    let (mut writer, reader) = channel.split(1);
    let sink = FaultSink {
        max_write: RECORD_SIZE,
        ..FaultSink::default()
    };
    let mut worker =
        PersistenceWorker::<_, 32>::new(reader, sink, FlushPolicy::OnShutdown, &mut channel)
            .expect("worker");

    // The two ends take turns: the producer runs until the ring is full.
    let mut sequence = 1;
    while sequence <= record_count {
        match writer.enqueue(&mut channel, &payload(sequence)) {
            Ok(written) => {
                assert_eq!(written, SequenceNumber(sequence));
                sequence += 1;
            }
            Err(JournalError::Saturated) => {
                worker.drain_batch(&mut channel).expect("concurrent drain");
                assert!(matches!(
                    worker.shutdown(&mut channel),
                    Err(PersistError::ProducerOpen)
                ));
            }
            Err(error) => panic!("unexpected enqueue error: {error:?}"),
        }
    }
    writer.close(&mut channel);
    worker.drain_batch(&mut channel).expect("concurrent drain");
    worker.shutdown(&mut channel).expect("shutdown");

    let sink = worker.into_sink(&mut channel).expect("healthy sink");
    assert_eq!(sink.flushes, 1);
    assert_eq!(sink.bytes.len(), RECORDS * RECORD_SIZE);
    let recovered = recover(&sink.bytes, 1).expect("recovery");
    assert_eq!(recovered.records, record_count);
    assert_eq!(recovered.next_sequence, record_count + 1);
}

#[test]
fn oversized_payload_and_sequence_overflow_publish_nothing() {
    let mut channel = JournalChannel::try_new().expect("channel");
    let mut writer = JournalWriter::new(u64::MAX);
    assert_eq!(
        writer.enqueue(&mut channel, &[0; 47]),
        Err(JournalError::SequenceOverflow)
    );
    assert_eq!(
        writer.enqueue(&mut channel, b"ok"),
        Err(JournalError::SequenceOverflow)
    );
    assert!(channel.pop_record().is_none());

    let mut channel = JournalChannel::try_new().expect("channel");
    let mut writer = JournalWriter::new(1);
    assert_eq!(
        writer.enqueue(&mut channel, &[0; 47]),
        Err(JournalError::PayloadTooLarge { len: 47 })
    );
    assert_eq!(writer.next_sequence(), 1);
    assert!(channel.pop_record().is_none());
}

#[test]
fn reader_latches_sequence_failure() {
    let mut channel = JournalChannel::try_new().expect("channel");
    assert!(channel.push_record(JournalRecord::new(SequenceNumber(2), b"gap").expect("record")));
    assert!(channel.push_record(JournalRecord::new(SequenceNumber(1), b"later").expect("record")));
    let mut reader = JournalReader::new(1);
    assert!(matches!(
        reader.read(&mut channel),
        Err(ReadError::SequenceMismatch { .. })
    ));
    assert_eq!(reader.read(&mut channel), Err(ReadError::Poisoned));
    assert!(reader.is_poisoned());
}

#[test]
fn reader_latches_checksum_failure_and_exhaustion() {
    let mut channel = JournalChannel::try_new().expect("channel");
    let record = JournalRecord::new(SequenceNumber(1), b"one").expect("record");
    assert!(channel.push_record(record.with_checksum(0)));
    let mut reader = JournalReader::new(1);
    assert_eq!(
        reader.read(&mut channel),
        Err(ReadError::ChecksumMismatch {
            sequence: SequenceNumber(1)
        })
    );
    assert_eq!(reader.expected_sequence(), 1);
    assert_eq!(reader.read(&mut channel), Err(ReadError::Poisoned));

    let mut channel = JournalChannel::try_new().expect("channel");
    let last = JournalRecord::new(SequenceNumber(u64::MAX), b"last").expect("record");
    assert!(channel.push_record(last));
    let mut reader = JournalReader::new(u64::MAX);
    assert_eq!(reader.read(&mut channel), Err(ReadError::Poisoned));
    assert!(reader.is_poisoned());
}

#[test]
fn persistence_handles_short_and_interrupted_writes_then_flushes() {
    let mut channel = JournalChannel::try_new().expect("channel");
    let (mut writer, reader) = channel.split(1);
    for id in 1..=3 {
        writer
            .enqueue(&mut channel, &payload(id))
            .expect("enqueue");
    }
    writer.close(&mut channel);
    let sink = FaultSink {
        max_write: 7,
        interrupts_remaining: 3,
        ..FaultSink::default()
    };
    let mut worker =
        PersistenceWorker::<_, 2>::new(reader, sink, FlushPolicy::EveryBatch, &mut channel)
            .expect("worker");
    assert_eq!(worker.drain_batch(&mut channel).expect("first batch"), 2);
    assert_eq!(worker.drain_batch(&mut channel).expect("second batch"), 1);
    worker.shutdown(&mut channel).expect("shutdown");
    let sink = worker.into_sink(&mut channel).expect("healthy sink");
    assert_eq!(sink.bytes.len(), 3 * RECORD_SIZE);
    assert_eq!(sink.flushes, 3);
    let recovered = recover(&sink.bytes, 1).expect("recovery");
    assert_eq!(recovered.records, 3);
    assert_eq!(recovered.next_sequence, 4);
}

enum InvalidWriteSink {
    Zero,
    Oversized,
}

impl DurableSink for InvalidWriteSink {
    fn write(&mut self, bytes: &[u8]) -> Result<usize, StorageError> {
        match self {
            Self::Zero => Ok(0),
            Self::Oversized => Ok(bytes.len() + 1),
        }
    }

    fn flush(&mut self) -> Result<(), StorageError> {
        Ok(())
    }
}

#[test]
fn invalid_sink_write_counts_poison_persistence() {
    for (sink, kind) in [
        (InvalidWriteSink::Zero, StorageErrorKind::WriteZero),
        (InvalidWriteSink::Oversized, StorageErrorKind::InvalidData),
    ] {
        let mut channel = JournalChannel::try_new().expect("channel");
        let (mut writer, reader) = channel.split(1);
        writer.enqueue(&mut channel, b"one").expect("enqueue");
        writer.close(&mut channel);
        let mut worker =
            PersistenceWorker::<_, 1>::new(reader, sink, FlushPolicy::EveryBatch, &mut channel)
                .expect("worker");
        assert!(matches!(
            worker.drain_batch(&mut channel),
            Err(PersistError::Io(error)) if error.kind == kind
        ));
        assert!(matches!(
            worker.shutdown(&mut channel),
            Err(PersistError::Poisoned)
        ));
    }
}

#[test]
fn write_steps_follow_the_answer_of_the_sink() {
    assert_eq!(after_write(64, Ok(64)), WriteStep::Advance(64));
    assert_eq!(after_write(64, Ok(1)), WriteStep::Advance(1));
    assert_eq!(
        after_write(64, Ok(0)),
        WriteStep::Fail(StorageError::of(StorageErrorKind::WriteZero))
    );
    assert_eq!(
        after_write(64, Ok(65)),
        WriteStep::Fail(StorageError::of(StorageErrorKind::InvalidData))
    );
    assert_eq!(
        after_write(64, Err(StorageError::of(StorageErrorKind::Interrupted))),
        WriteStep::Retry
    );
    let full = StorageError {
        kind: StorageErrorKind::Other,
        os_code: Some(28),
    };
    assert_eq!(after_write(64, Err(full)), WriteStep::Fail(full));
}

#[test]
fn read_steps_follow_the_answer_of_the_file() {
    assert_eq!(after_read(0, Ok(64)), ReadStep::Filled(64));
    assert_eq!(after_read(10, Ok(1)), ReadStep::Filled(11));
    assert_eq!(after_read(10, Ok(0)), ReadStep::Finish);
    assert_eq!(
        after_read(10, Err(StorageError::of(StorageErrorKind::Interrupted))),
        ReadStep::Retry
    );
    let broken = StorageError {
        kind: StorageErrorKind::Other,
        os_code: Some(5),
    };
    assert_eq!(
        after_read(10, Err(broken)),
        ReadStep::Fail(RecoveryError::Io(broken))
    );
}

#[test]
fn persistence_failure_poisoning_is_permanent() {
    let mut channel = JournalChannel::try_new().expect("channel");
    let (mut writer, reader) = channel.split(1);
    writer.enqueue(&mut channel, b"one").expect("enqueue");
    writer.close(&mut channel);
    let sink = FaultSink {
        max_write: 8,
        fail_after: Some(8),
        ..FaultSink::default()
    };
    let mut worker =
        PersistenceWorker::<_, 1>::new(reader, sink, FlushPolicy::EveryBatch, &mut channel)
            .expect("worker");
    assert!(matches!(
        worker.drain_batch(&mut channel),
        Err(PersistError::Io(_))
    ));
    assert!(matches!(
        worker.drain_batch(&mut channel),
        Err(PersistError::Poisoned)
    ));
    assert!(matches!(
        worker.shutdown(&mut channel),
        Err(PersistError::Poisoned)
    ));
    assert!(matches!(
        worker.into_sink(&mut channel),
        Err(PersistError::Poisoned)
    ));
}

#[test]
fn flush_failure_poisoning_is_permanent() {
    let mut channel = JournalChannel::try_new().expect("channel");
    let (mut writer, reader) = channel.split(1);
    writer.enqueue(&mut channel, b"one").expect("enqueue");
    writer.close(&mut channel);
    let sink = FaultSink {
        max_write: RECORD_SIZE,
        fail_flush: true,
        ..FaultSink::default()
    };
    let mut worker =
        PersistenceWorker::<_, 1>::new(reader, sink, FlushPolicy::EveryBatch, &mut channel)
            .expect("worker");
    assert!(matches!(
        worker.drain_batch(&mut channel),
        Err(PersistError::Io(_))
    ));
    assert!(matches!(
        worker.drain_batch(&mut channel),
        Err(PersistError::Poisoned)
    ));
}

#[test]
fn recovery_rejects_truncation_corruption_duplicates_and_gaps() {
    let first = JournalRecord::new(SequenceNumber(1), b"one")
        .expect("record")
        .encode();
    let second = JournalRecord::new(SequenceNumber(2), b"two")
        .expect("record")
        .encode();
    let mut valid = Vec::from(first);
    valid.extend_from_slice(&second);
    assert_eq!(recover(&valid, 1).expect("valid").next_sequence, 3);

    assert!(matches!(
        recover(&valid[..RECORD_SIZE + 11], 1),
        Err(RecoveryError::Truncated { bytes: 11 })
    ));
    let mut corrupt = valid.clone();
    corrupt[RECORD_SIZE + 30] ^= 1;
    assert!(matches!(
        recover(&corrupt, 1),
        Err(RecoveryError::Decode { .. })
    ));
    assert_eq!(
        recover(&corrupt, 1),
        Err(RecoveryError::Decode {
            offset: 64,
            source: DecodeError::ChecksumMismatch {
                sequence: SequenceNumber(2)
            }
        })
    );

    let mut duplicate = Vec::from(first);
    duplicate.extend_from_slice(&first);
    assert!(matches!(
        recover(&duplicate, 1),
        Err(RecoveryError::Sequence { .. })
    ));
    let gap = JournalRecord::new(SequenceNumber(3), b"three")
        .expect("record")
        .encode();
    let mut missing = Vec::from(first);
    missing.extend_from_slice(&gap);
    assert!(matches!(
        recover(&missing, 1),
        Err(RecoveryError::Sequence { .. })
    ));
}

#[test]
fn recovery_refuses_an_exhausted_sequence() {
    let last = JournalRecord::new(SequenceNumber(u64::MAX), b"last")
        .expect("record")
        .encode();
    assert_eq!(
        recover(&last, u64::MAX),
        Err(RecoveryError::SequenceOverflow)
    );
    let scan = Recovery::start(5);
    assert_eq!(scan.finish(0), Ok(scan));
    assert_eq!(scan.finish(9), Err(RecoveryError::Truncated { bytes: 9 }));
}

#[test]
fn crash_points_recover_an_ordered_prefix_or_fail_closed() {
    let first = JournalRecord::new(SequenceNumber(1), b"one")
        .expect("record")
        .encode();
    let second = JournalRecord::new(SequenceNumber(2), b"two")
        .expect("record")
        .encode();

    for (bytes, records, next_sequence) in [
        (&[][..], 0, 1),
        (&first[..], 1, 2),
        (&[first.as_slice(), second.as_slice()].concat()[..], 2, 3),
    ] {
        let recovered = recover(bytes, 1).expect("ordered prefix");
        assert_eq!(recovered.records, records);
        assert_eq!(recovered.next_sequence, next_sequence);
    }

    for partial_len in [1, 13, RECORD_SIZE - 1] {
        let mut partial = Vec::from(first);
        partial.extend_from_slice(&second[..partial_len]);
        assert!(matches!(
            recover(&partial, 1),
            Err(RecoveryError::Truncated { bytes }) if bytes == partial_len
        ));
    }
}

#[test]
fn saturation_does_not_consume_sequence() {
    let mut channel = JournalChannel::try_new().expect("channel");
    let mut writer = JournalWriter::new(1);
    for _ in 0..RING_CAPACITY {
        writer.enqueue(&mut channel, b"x").expect("space");
    }
    assert_eq!(
        writer.enqueue(&mut channel, b"full"),
        Err(JournalError::Saturated)
    );
    assert_eq!(writer.next_sequence(), RING_CAPACITY as u64 + 1);
    assert!(channel.pop_record().is_some());
    assert_eq!(
        writer.enqueue(&mut channel, b"resume").expect("space").0,
        RING_CAPACITY as u64 + 1
    );
}

#[test]
fn dequeue_does_not_publish_persistence_progress() {
    let mut channel = JournalChannel::try_new().expect("channel");
    let (mut writer, mut reader) = channel.split(73);
    let status = |channel: &JournalChannel| channel.status_reader().snapshot();
    assert_eq!(
        writer
            .status_reader(&channel)
            .expect("controlled status")
            .snapshot(),
        initial_status(73)
    );
    writer.enqueue(&mut channel, b"one").expect("enqueue");
    assert_eq!(status(&channel), initial_status(73));
    assert_eq!(
        reader.read(&mut channel).expect("record").sequence().0,
        73
    );
    assert_eq!(status(&channel), initial_status(73));
    let refused = PersistenceWorker::<_, 2>::new(
        reader,
        FaultSink::default(),
        FlushPolicy::EveryBatch,
        &mut channel,
    );
    assert!(matches!(refused, Err(error) if error.kind == StorageErrorKind::InvalidInput));
    assert_eq!(
        status(&channel),
        JournalStatus {
            poisoned: true,
            ..initial_status(73)
        }
    );
}

#[test]
fn raw_constructors_have_no_status_and_keep_reader_reuse() {
    let mut channel = JournalChannel::try_new().expect("channel");
    let mut writer = JournalWriter::new(5);
    assert!(writer.status_reader(&channel).is_none());
    let mut reader = JournalReader::new(5);
    writer.enqueue(&mut channel, b"first").expect("enqueue");
    reader.read(&mut channel).expect("read");
    let worker = PersistenceWorker::<_, 1>::new(
        reader,
        FaultSink::default(),
        FlushPolicy::OnShutdown,
        &mut channel,
    )
    .expect("raw worker accepts consumed reader");
    worker
        .into_sink(&mut channel)
        .expect("raw sink extraction");
}

#[test]
fn worker_rejects_a_controlled_reader_that_failed_validation() {
    let mut channel = JournalChannel::try_new().expect("channel");
    {
        let (mut writer, _reader) = channel.split(3);
        writer
            .enqueue(&mut channel, b"old record")
            .expect("enqueue");
        writer.close(&mut channel);
    }
    let (writer, mut reader) = channel.split(4);
    assert!(writer.status_reader(&channel).is_some());
    assert!(matches!(
        reader.read(&mut channel),
        Err(ReadError::SequenceMismatch { .. })
    ));
    let refused = PersistenceWorker::<_, 2>::new(
        reader,
        FaultSink::default(),
        FlushPolicy::EveryBatch,
        &mut channel,
    );
    assert!(matches!(refused, Err(error) if error.kind == StorageErrorKind::InvalidInput));
    let status = channel.status_reader().snapshot();
    assert!(status.poisoned);
    assert_eq!(status.next_written_sequence, 4);
}

#[test]
fn short_writes_publish_only_after_the_entire_batch() {
    let mut channel = JournalChannel::try_new().expect("channel");
    let (mut writer, reader) = channel.split(91);
    writer.enqueue(&mut channel, b"one").expect("enqueue");
    writer.enqueue(&mut channel, b"two").expect("enqueue");
    let sink = FaultSink {
        max_write: 7,
        ..FaultSink::default()
    };
    let mut worker =
        PersistenceWorker::<_, 2>::new(reader, sink, FlushPolicy::EveryBatch, &mut channel)
            .expect("worker");
    assert_eq!(
        channel.status_reader().snapshot(),
        initial_status(91)
    );
    assert_eq!(worker.drain_batch(&mut channel).expect("batch"), 2);
    assert_eq!(
        channel.status_reader().snapshot(),
        JournalStatus {
            next_written_sequence: 93,
            next_durable_sequence: 93,
            ..initial_status(91)
        }
    );
    let sink = worker.into_sink(&mut channel).expect("sink");
    assert_eq!(sink.writes, 20);
    assert_eq!(sink.flushes, 1);
    assert!(channel.status_reader().snapshot().poisoned);
}

#[test]
fn partial_batch_failure_keeps_the_previous_watermarks() {
    let mut channel = JournalChannel::try_new().expect("channel");
    let (mut writer, reader) = channel.split(40);
    for _ in 0..4 {
        writer.enqueue(&mut channel, b"record").expect("enqueue");
    }
    let sink = FaultSink {
        max_write: 7,
        fail_after: Some(3 * RECORD_SIZE + 7),
        ..FaultSink::default()
    };
    let mut worker =
        PersistenceWorker::<_, 2>::new(reader, sink, FlushPolicy::EveryBatch, &mut channel)
            .expect("worker");
    assert_eq!(worker.drain_batch(&mut channel).expect("first batch"), 2);
    assert!(matches!(
        worker.drain_batch(&mut channel),
        Err(PersistError::Io(_))
    ));
    assert_eq!(
        channel.status_reader().snapshot(),
        JournalStatus {
            next_written_sequence: 42,
            next_durable_sequence: 42,
            poisoned: true,
            ..initial_status(40)
        }
    );
    assert!(matches!(
        worker.into_sink(&mut channel),
        Err(PersistError::Poisoned)
    ));
}

#[test]
fn flush_failure_keeps_durable_behind_written() {
    let mut channel = JournalChannel::try_new().expect("channel");
    let (mut writer, reader) = channel.split(40);
    for _ in 0..4 {
        writer.enqueue(&mut channel, b"record").expect("enqueue");
    }
    let sink = FaultSink {
        max_write: RECORD_SIZE,
        fail_flush_on: Some(2),
        ..FaultSink::default()
    };
    let mut worker =
        PersistenceWorker::<_, 2>::new(reader, sink, FlushPolicy::EveryBatch, &mut channel)
            .expect("worker");
    assert_eq!(worker.drain_batch(&mut channel).expect("first batch"), 2);
    assert!(matches!(
        worker.drain_batch(&mut channel),
        Err(PersistError::Io(_))
    ));
    assert_eq!(
        channel.status_reader().snapshot(),
        JournalStatus {
            next_written_sequence: 44,
            next_durable_sequence: 42,
            poisoned: true,
            ..initial_status(40)
        }
    );
}

#[test]
fn shutdown_flush_failure_never_publishes_completion() {
    let mut channel = JournalChannel::try_new().expect("channel");
    let (mut writer, reader) = channel.split(9);
    writer.enqueue(&mut channel, b"record").expect("enqueue");
    writer.close(&mut channel);
    let sink = FaultSink {
        fail_flush_on: Some(1),
        ..FaultSink::default()
    };
    let mut worker =
        PersistenceWorker::<_, 2>::new(reader, sink, FlushPolicy::OnShutdown, &mut channel)
            .expect("worker");
    assert!(matches!(
        worker.shutdown(&mut channel),
        Err(PersistError::Io(_))
    ));
    assert_eq!(
        channel.status_reader().snapshot(),
        JournalStatus {
            next_written_sequence: 10,
            producer_closed: true,
            poisoned: true,
            ..initial_status(9)
        }
    );
}

#[test]
fn shutdown_requires_close_and_publishes_final_progress_once() {
    let mut channel = JournalChannel::try_new().expect("channel");
    let (mut writer, reader) = channel.split(15);
    writer.enqueue(&mut channel, b"record").expect("enqueue");
    let mut worker = PersistenceWorker::<_, 2>::new(
        reader,
        FaultSink::default(),
        FlushPolicy::OnShutdown,
        &mut channel,
    )
    .expect("worker");
    assert!(matches!(
        worker.shutdown(&mut channel),
        Err(PersistError::ProducerOpen)
    ));
    assert_eq!(channel.status_reader().snapshot(), initial_status(15));
    assert_eq!(worker.drain_batch(&mut channel).expect("batch"), 1);
    assert_eq!(
        channel.status_reader().snapshot(),
        JournalStatus {
            next_written_sequence: 16,
            ..initial_status(15)
        }
    );
    writer.enqueue(&mut channel, b"tail").expect("enqueue");
    writer.close(&mut channel);
    assert!(channel.status_reader().snapshot().producer_closed);
    assert!(!channel.status_reader().snapshot().shutdown_complete);
    worker.shutdown(&mut channel).expect("shutdown");
    worker.shutdown(&mut channel).expect("repeated shutdown");
    assert_eq!(worker.drain_batch(&mut channel).expect("empty"), 0);
    let sink = worker.into_sink(&mut channel).expect("sink");
    assert_eq!(sink.flushes, 1);
    assert_eq!(
        channel.status_reader().snapshot(),
        JournalStatus {
            next_written_sequence: 17,
            next_durable_sequence: 17,
            producer_closed: true,
            shutdown_complete: true,
            ..initial_status(15)
        }
    );
}

#[test]
fn abandoning_reader_or_worker_poisons_controlled_status() {
    for mode in 0..4 {
        let mut channel = JournalChannel::try_new().expect("channel");
        let (writer, reader) = channel.split(1);
        assert!(writer.status_reader(&channel).is_some());
        match mode {
            0 => reader.abandon(&mut channel),
            1 => {
                let invalid = PersistenceWorker::<_, 0>::new(
                    reader,
                    FaultSink::default(),
                    FlushPolicy::OnShutdown,
                    &mut channel,
                );
                assert!(
                    matches!(invalid, Err(error) if error.kind == StorageErrorKind::InvalidInput)
                );
            }
            2 => {
                let worker = PersistenceWorker::<_, 1>::new(
                    reader,
                    FaultSink::default(),
                    FlushPolicy::OnShutdown,
                    &mut channel,
                )
                .expect("worker");
                worker.abandon(&mut channel);
            }
            _ => {
                let worker = PersistenceWorker::<_, 1>::new(
                    reader,
                    FaultSink::default(),
                    FlushPolicy::OnShutdown,
                    &mut channel,
                )
                .expect("worker");
                worker
                    .into_sink(&mut channel)
                    .expect("sink extraction remains supported");
            }
        }
        assert_eq!(
            channel.status_reader().snapshot(),
            JournalStatus {
                poisoned: true,
                ..initial_status(1)
            }
        );
        assert!(channel.status_reader().is_poisoned());
    }
}

#[test]
fn concurrent_status_preserves_watermark_order_and_final_counters() {
    const FIRST: u64 = 500;
    const RECORDS: u64 = 10_000;
    let mut channel = JournalChannel::try_new().expect("channel");
    let (mut writer, reader) = channel.split(FIRST);
    let sink = FaultSink {
        max_write: RECORD_SIZE,
        ..FaultSink::default()
    };
    let mut worker =
        PersistenceWorker::<_, 7>::new(reader, sink, FlushPolicy::EveryBatch, &mut channel)
            .expect("worker");
    let mut previous = initial_status(FIRST);
    let mut queued = 0;
    while queued < RECORDS {
        match writer.enqueue(&mut channel, b"record") {
            Ok(_) => queued += 1,
            Err(JournalError::Saturated) => {
                worker.drain_batch(&mut channel).expect("batch");
            }
            Err(error) => panic!("unexpected enqueue error: {error:?}"),
        }
        let current = channel.status_reader().snapshot();
        assert!(!current.poisoned);
        assert!(current.next_durable_sequence <= current.next_written_sequence);
        assert!(current.next_written_sequence >= previous.next_written_sequence);
        assert!(current.next_durable_sequence >= previous.next_durable_sequence);
        previous = current;
    }
    writer.close(&mut channel);
    worker.shutdown(&mut channel).expect("shutdown");
    let current = channel.status_reader().snapshot();
    assert!(current.shutdown_complete);
    assert!(current.producer_closed);
    assert_eq!(current.next_written_sequence, FIRST + RECORDS);
    assert_eq!(current.next_durable_sequence, FIRST + RECORDS);
}

#[test]
fn persisted_records_recover() {
    let mut channel = JournalChannel::try_new().expect("channel");
    let (mut writer, reader) = channel.split(7);
    for id in 0..5 {
        writer
            .enqueue(&mut channel, &payload(id))
            .expect("enqueue");
    }
    writer.close(&mut channel);
    let mut worker = PersistenceWorker::<_, 2>::new(
        reader,
        MemorySink::new(),
        FlushPolicy::OnShutdown,
        &mut channel,
    )
    .expect("worker");
    worker.shutdown(&mut channel).expect("shutdown");
    let sink = worker.into_sink(&mut channel).expect("sink");
    assert_eq!(
        recover(sink.bytes(), 7),
        Ok(Recovery {
            records: 5,
            next_sequence: 12
        })
    );
}

/// A sink that answers by a script and keeps what it was offered.
struct ScriptSink {
    answers: Vec<Result<usize, StorageError>>,
    offered: Vec<Vec<u8>>,
    flushes: usize,
}

impl ScriptSink {
    fn new(answers: &[Result<usize, StorageError>]) -> Self {
        ScriptSink {
            answers: answers.iter().rev().copied().collect(),
            offered: Vec::new(),
            flushes: 0,
        }
    }
}

impl DurableSink for ScriptSink {
    fn write(&mut self, bytes: &[u8]) -> Result<usize, StorageError> {
        self.offered.push(bytes.to_vec());
        self.answers.pop().expect("one answer for each write")
    }

    fn flush(&mut self) -> Result<(), StorageError> {
        self.flushes += 1;
        Ok(())
    }
}

#[test]
fn write_all_offers_the_rest_until_it_is_taken() {
    let interrupted = Err(StorageError::of(StorageErrorKind::Interrupted));
    let mut sink = ScriptSink::new(&[Ok(2), interrupted, interrupted, Ok(3), Ok(1)]);
    assert_eq!(write_all(&mut sink, b"abcdef"), Ok(()));
    assert_eq!(
        sink.offered,
        [&b"abcdef"[..], b"cdef", b"cdef", b"cdef", b"f"]
    );
    assert_eq!(sink.flushes, 0);

    let mut none = ScriptSink::new(&[]);
    assert_eq!(write_all(&mut none, b""), Ok(()));
    assert!(none.offered.is_empty());
}

#[test]
fn write_all_returns_a_failure_as_it_came() {
    let interrupted = Err(StorageError::of(StorageErrorKind::Interrupted));
    let full = StorageError {
        kind: StorageErrorKind::Other,
        os_code: Some(28),
    };
    for (answer, expected) in [
        (Err(full), full),
        (Ok(0), StorageError::of(StorageErrorKind::WriteZero)),
        (Ok(5), StorageError::of(StorageErrorKind::InvalidData)),
    ] {
        let mut sink = ScriptSink::new(&[Ok(2), interrupted, answer, Ok(4)]);
        assert_eq!(write_all(&mut sink, b"abcdef"), Err(expected));
        assert_eq!(sink.offered, [&b"abcdef"[..], b"cdef", b"cdef"]);
        assert_eq!(sink.answers.len(), 1, "nothing is written behind a failure");
    }
}

#[test]
fn a_flush_follows_each_batch_only_where_the_policy_asks() {
    for (policy, drained, at_end) in [
        (FlushPolicy::EveryBatch, 2, 3),
        (FlushPolicy::OnShutdown, 0, 1),
    ] {
        let mut channel = JournalChannel::try_new().expect("channel");
        let (mut writer, reader) = channel.split(1);
        for id in 0..3 {
            writer.enqueue(&mut channel, &payload(id)).expect("enqueue");
        }
        let answers = vec![Ok(RECORD_SIZE); 3];
        let sink = ScriptSink::new(&answers);
        let mut worker =
            PersistenceWorker::<_, 2>::new(reader, sink, policy, &mut channel).expect("worker");
        assert_eq!(worker.drain_batch(&mut channel).expect("first"), 2);
        assert_eq!(worker.drain_batch(&mut channel).expect("second"), 1);
        assert_eq!(worker.drain_batch(&mut channel).expect("none"), 0);
        let status = channel.status_reader().snapshot();
        assert_eq!(status.next_written_sequence, 4);
        assert_eq!(
            status.next_durable_sequence,
            if drained == 0 { 1 } else { 4 }
        );
        writer.close(&mut channel);
        worker.shutdown(&mut channel).expect("shutdown");
        let sink = worker
            .into_sink(&mut channel)
            .map_err(|_| ())
            .expect("sink");
        assert_eq!(sink.flushes, at_end);
        let status = channel.status_reader().snapshot();
        assert_eq!(status.next_durable_sequence, 4);
        assert!(status.shutdown_complete && !status.poisoned);
    }
}

#[test]
fn a_failure_at_any_call_publishes_no_more_than_was_done() {
    let failure = Err(StorageError::of(StorageErrorKind::Other));
    for writes in 0..4 {
        let mut channel = JournalChannel::try_new().expect("channel");
        let (mut writer, reader) = channel.split(91);
        writer.enqueue(&mut channel, b"one").expect("enqueue");
        writer.enqueue(&mut channel, b"two").expect("enqueue");
        let mut answers = vec![Ok(RECORD_SIZE / 2); writes];
        answers.push(failure);
        let mut worker = PersistenceWorker::<_, 2>::new(
            reader,
            ScriptSink::new(&answers),
            FlushPolicy::EveryBatch,
            &mut channel,
        )
        .expect("worker");
        assert!(matches!(
            worker.drain_batch(&mut channel),
            Err(PersistError::Io(_))
        ));
        assert_eq!(
            channel.status_reader().snapshot(),
            JournalStatus {
                poisoned: true,
                ..initial_status(91)
            },
            "failed behind {writes} writes"
        );
        assert!(matches!(
            worker.drain_batch(&mut channel),
            Err(PersistError::Poisoned)
        ));
    }
}
