//! Journal cells for record, handoff, persistence, and recovery work.

use vstd::prelude::*;

use crate::bench::cells::{
    extended, folded, lemma_extended_none, lemma_extended_one, rotated, spec_rotated, Cell,
};
use crate::bench::clock::{time_samples, warm_up, Workload};
use crate::bench::fnv::{previous_record_checksum, record_hash};
use crate::bench::record::{
    params_of, push_figures, recorded, BenchRecord, BenchView, Extra, ExtraView,
};
use crate::journal::record::{crc32c_of, record_checksum, JournalRecord, RecordView};
use crate::journal::{MAX_PAYLOAD, RECORD_SIZE};
use crate::types::SequenceNumber;

verus! {

/// The payload of every record of a cell.
pub open spec fn payload() -> Seq<u8> {
    Seq::new(46, |i: int| 0x4au8)
}

pub(crate) fn payload_bytes() -> (bytes: [u8; 46])
    ensures
        bytes@ == payload(),
{
    let bytes: [u8; 46] = [0x4au8; 46];
    assert(bytes@ =~= payload());
    bytes
}

/// The record of a cell under a sequence.
pub open spec fn cell_record(sequence: int) -> RecordView {
    RecordView::sealed(SequenceNumber(sequence as u64), payload())
}

/// The records of a cell from `first` up.
pub open spec fn cell_records(first: int, count: nat) -> Seq<RecordView> {
    Seq::new(count, |i: int| cell_record(first + i))
}

/// A record of a cell is valid.
pub proof fn lemma_cell_record(sequence: int)
    ensures
        cell_record(sequence).verified(),
        cell_record(sequence).payload.len() == MAX_PAYLOAD,
        cell_record(sequence).sequence.0 == sequence as u64,
        cell_record(sequence).content() == payload(),
{
    let record = cell_record(sequence);
    let blank = RecordView::blank(SequenceNumber(sequence as u64), payload());
    assert(record.checked_bytes() == blank.checked_bytes());
    assert(record.content() =~= payload());
}

/// The rate of a journal cell whose mean is too short for the clock: that counts as
/// one nanosecond.
pub const BRIEF_RATE: u64 = 1_000_000_000;

/// A journal record with nothing measured.
pub open spec fn journal_base(
    scenario: Seq<char>,
    params: Seq<(Seq<char>, ExtraView)>,
    checksum: u64,
) -> BenchView {
    BenchView::blank("component"@, "journal"@, scenario, params, checksum)
}

/// Derives the figures of a journal cell and appends its record.
pub fn fill_record(
    out: &mut Vec<BenchRecord>,
    scenario: &'static str,
    params: Vec<(&'static str, Extra)>,
    checksum: u64,
    samples: Vec<u64>,
)
    requires
        samples@.len() > 0,
    ensures
        recorded(
            old(out)@,
            final(out)@,
            journal_base(scenario@, params_of(params@), checksum),
            samples@,
            BRIEF_RATE,
        ),
{
    let record = BenchRecord::new("component", "journal", scenario, params, checksum);
    push_figures(out, record, samples, BRIEF_RATE);
}

/// The parameters of a cell that computes checksums.
pub open spec fn checksum_params(algorithm: Seq<char>, cpu_crc: Seq<char>) -> Seq<
    (Seq<char>, ExtraView),
> {
    seq![
        ("algorithm"@, ExtraView::Text(algorithm)),
        ("cpu_crc"@, ExtraView::Text(cpu_crc)),
    ]
}

/// Appends the record of a cell that computes checksums. `cpu_crc` names the
/// checksum instruction of the machine.
pub fn push_journal_record(
    out: &mut Vec<BenchRecord>,
    scenario: &'static str,
    algorithm: &'static str,
    cpu_crc: &'static str,
    checksum: u64,
    samples: Vec<u64>,
)
    requires
        samples@.len() > 0,
    ensures
        recorded(
            old(out)@,
            final(out)@,
            journal_base(scenario@, checksum_params(algorithm@, cpu_crc@), checksum),
            samples@,
            BRIEF_RATE,
        ),
{
    let mut params: Vec<(&'static str, Extra)> = Vec::new();
    params.push(("algorithm", Extra::Text(algorithm)));
    params.push(("cpu_crc", Extra::Text(cpu_crc)));
    assert(params_of(params@) =~= checksum_params(algorithm@, cpu_crc@));
    fill_record(out, scenario, params, checksum, samples);
}

/// What a checksum cell repeats.
#[derive(Clone, Copy, Debug, PartialEq, Eq, Structural)]
pub enum ChecksumOp {
    /// The lane-wise hash of sequence and payload.
    Hash,
    /// The journal's checksum of the disk form.
    Checksum,
    /// A whole record.
    Create,
    /// The verification of a record.
    Verify,
}

impl ChecksumOp {
    /// What the operation yields for a sequence.
    pub open spec fn value(self, sequence: nat) -> u64 {
        match self {
            ChecksumOp::Hash => record_hash(sequence as u64, payload()),
            ChecksumOp::Checksum => crc32c_of(
                RecordView::blank(SequenceNumber(sequence as u64), payload()).checked_bytes(),
            ) as u64,
            _ => sequence as u64,
        }
    }

    /// What the operation adds to the digest.
    pub open spec fn series(self) -> spec_fn(nat) -> u64 {
        |i: nat| spec_rotated(self.value(i), (i % 64) as u64)
    }

    /// The digest once the operation has run `done` times.
    pub open spec fn digest(self, done: nat) -> u64 {
        if self == ChecksumOp::Verify {
            done as u64
        } else {
            folded(0, self.series(), done)
        }
    }
}

/// One operation on records, again and again.
pub struct ChecksumWork {
    op: ChecksumOp,
    bytes: [u8; RECORD_SIZE],
    record: JournalRecord,
    digest: u64,
}

/// The disk form of a record without its checksum.
fn unsealed(sequence: u64) -> (bytes: [u8; RECORD_SIZE])
    ensures
        bytes@ == RecordView::blank(SequenceNumber(sequence), payload()).checked_bytes(),
{
    match JournalRecord::blank(SequenceNumber(sequence), payload_bytes().as_slice()) {
        Ok(record) => record.bytes_without_checksum(),
        Err(error) => vstd::pervasive::unreached(),
    }
}

/// A record of a cell.
pub(crate) fn sealed(sequence: u64) -> (record: JournalRecord)
    ensures
        record@ == cell_record(sequence as int),
        record@.verified(),
{
    match JournalRecord::new(SequenceNumber(sequence), payload_bytes().as_slice()) {
        Ok(record) => record,
        Err(error) => vstd::pervasive::unreached(),
    }
}

impl Workload for ChecksumWork {
    type Job = ChecksumOp;

    closed spec fn job(&self) -> ChecksumOp {
        self.op
    }

    closed spec fn limit(&self) -> nat {
        (u64::MAX - 1) as nat
    }

    closed spec fn ready(&self, done: nat) -> bool {
        &&& done <= u64::MAX - 1
        &&& self.digest == self.op.digest(done)
        &&& self.record@.verified()
        &&& self.op == ChecksumOp::Checksum ==> self.bytes@ == RecordView::blank(
            SequenceNumber(done as u64),
            payload(),
        ).checked_bytes()
    }

    closed spec fn ran(&self, done: nat) -> bool {
        &&& done < u64::MAX - 1
        &&& self.digest == self.op.digest(done + 1)
        &&& self.record@.verified()
    }

    fn run(&mut self, index: u64) {
        let turn: u64 = index % 64;
        assert(self.op.series()(index as nat) == spec_rotated(
            self.op.value(index as nat),
            (index as nat % 64) as u64,
        ));
        match self.op {
            ChecksumOp::Hash => {
                let hash: u64 = previous_record_checksum(index, payload_bytes().as_slice());
                self.digest = self.digest ^ rotated(hash, turn);
            },
            ChecksumOp::Checksum => {
                let checksum: u32 = record_checksum(self.bytes.as_slice());
                self.digest = self.digest ^ rotated(checksum as u64, turn);
            },
            ChecksumOp::Create => {
                let record = sealed(index);
                self.digest = self.digest ^ rotated(record.sequence().0, turn);
            },
            ChecksumOp::Verify => {
                if self.record.verify() {
                    self.digest = self.digest + 1;
                }
            },
        }
    }

    fn restore(&mut self, index: u64) {
        match self.op {
            ChecksumOp::Checksum => {
                self.bytes = unsealed(index + 1);
            },
            _ => {},
        }
    }
}

/// Times one operation on records.
fn checksum_op(op: ChecksumOp, warm: u64, samples: usize) -> (result: (Vec<u64>, u64))
    requires
        samples < u64::MAX,
        warm < u64::MAX,
    ensures
        result.0@.len() == samples,
        result.1 == op.digest(samples as nat),
{
    let mut before = ChecksumWork { op, bytes: unsealed(0), record: sealed(1), digest: 0 };
    warm_up(&mut before, warm);
    let mut work = ChecksumWork { op, bytes: unsealed(0), record: sealed(1), digest: 0 };
    let taken = time_samples(&mut work, 0, samples);
    (taken, work.digest)
}

/// What the checksum cells record.
pub open spec fn checksum_suite(samples: usize, cpu_crc: Seq<char>) -> Seq<Cell> {
    if samples == 0 {
        Seq::empty()
    } else {
        let selected = checksum_params("crc32c_selected"@, cpu_crc);
        let count = samples as nat;
        seq![
            Cell {
                base: journal_base(
                    "journal_checksum_fnv_previous"@,
                    checksum_params("fnv_derived"@, cpu_crc),
                    ChecksumOp::Hash.digest(count),
                ),
                samples: count,
                brief_rate: BRIEF_RATE,
            },
            Cell {
                base: journal_base(
                    "journal_checksum_selected"@,
                    selected,
                    ChecksumOp::Checksum.digest(count),
                ),
                samples: count,
                brief_rate: BRIEF_RATE,
            },
            Cell {
                base: journal_base(
                    "journal_record_create"@,
                    selected,
                    ChecksumOp::Create.digest(count),
                ),
                samples: count,
                brief_rate: BRIEF_RATE,
            },
            Cell {
                base: journal_base(
                    "journal_record_verify"@,
                    selected,
                    ChecksumOp::Verify.digest(count),
                ),
                samples: count,
                brief_rate: BRIEF_RATE,
            },
        ]
    }
}

/// Times checksum alternatives and complete record operations.
pub fn journal_checksum_benchmarks(
    samples: usize,
    cpu_crc: &'static str,
    out: &mut Vec<BenchRecord>,
)
    requires
        samples < u64::MAX,
    ensures
        extended(old(out)@, final(out)@, checksum_suite(samples, cpu_crc@)),
{
    let ghost before = out@;
    if samples == 0 {
        proof {
            lemma_extended_none(before);
        }
        return;
    }
    let (taken, digest) = checksum_op(ChecksumOp::Hash, 64, samples);
    push_journal_record(
        out,
        "journal_checksum_fnv_previous",
        "fnv_derived",
        cpu_crc,
        digest,
        taken,
    );
    let ghost first = out@;
    let (taken, digest) = checksum_op(ChecksumOp::Checksum, 0, samples);
    push_journal_record(
        out,
        "journal_checksum_selected",
        "crc32c_selected",
        cpu_crc,
        digest,
        taken,
    );
    let ghost second = out@;
    let (taken, digest) = checksum_op(ChecksumOp::Create, 64, samples);
    push_journal_record(
        out,
        "journal_record_create",
        "crc32c_selected",
        cpu_crc,
        digest,
        taken,
    );
    let ghost third = out@;
    let (taken, digest) = checksum_op(ChecksumOp::Verify, 64, samples);
    push_journal_record(
        out,
        "journal_record_verify",
        "crc32c_selected",
        cpu_crc,
        digest,
        taken,
    );
    proof {
        let cells = checksum_suite(samples, cpu_crc@);
        let none = Seq::<Cell>::empty();
        lemma_extended_none(before);
        lemma_extended_one(before, before, first, none, cells[0]);
        let one = none.push(cells[0]);
        lemma_extended_one(before, first, second, one, cells[1]);
        let two = one.push(cells[1]);
        lemma_extended_one(before, second, third, two, cells[2]);
        let three = two.push(cells[2]);
        lemma_extended_one(before, third, out@, three, cells[3]);
        assert(three.push(cells[3]) =~= cells);
    }
}

} // verus!
