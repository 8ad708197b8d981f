//! The journal record and its 64-byte disk form.

use vstd::prelude::*;

use crate::journal::bytes::{
    be16, be32, be64, get16, get32, get64, lemma_join16, lemma_join32, lemma_join64,
    lemma_split16, lemma_split32, lemma_split64, put16, put32, put64, read16, read32, read64,
};
use crate::journal::{DecodeError, JournalError, FORMAT_VERSION, MAX_PAYLOAD, RECORD_SIZE};
use crate::types::SequenceNumber;

verus! {

pub const MAGIC: u16 = 0x4a52;

pub const CHECKSUM_OFFSET: usize = 14;

pub const PAYLOAD_OFFSET: usize = 18;

/// The CRC-32C of a byte string.
pub uninterp spec fn crc32c_of(bytes: Seq<u8>) -> u32;

/// CRC32C boundary for record creation and verification.
///
/// Calls `crc32c::crc32c`, which is taken to depend on the bytes alone: the
/// same bytes have the same checksum in every process and on every machine.
/// Nothing is claimed of its value.
#[verifier::external_body]
#[must_use]
pub fn record_checksum(bytes: &[u8]) -> (checksum: u32)
    ensures
        checksum == crc32c_of(bytes@),
{
    crc32c::crc32c(bytes)
}

/// A record as a mathematical value.
#[verifier::ext_equal]
pub struct RecordView {
    pub sequence: SequenceNumber,
    pub checksum: u32,
    pub len: u16,
    pub magic: u16,
    pub payload: Seq<u8>,
    pub version: u8,
    pub flags: u8,
}

impl RecordView {
    /// The disk form with `checksum` in the checksum field.
    pub open spec fn bytes_with(self, checksum: u32) -> Seq<u8> {
        be16(self.magic) + seq![self.version, self.flags] + be64(self.sequence.0) + be16(self.len)
            + be32(checksum) + self.payload
    }

    /// The bytes under the checksum: the disk form with a zero checksum field.
    pub open spec fn checked_bytes(self) -> Seq<u8> {
        self.bytes_with(0)
    }

    /// The disk form.
    pub open spec fn encoded(self) -> Seq<u8> {
        self.bytes_with(self.checksum)
    }

    /// Every field but the checksum is one that this format writes.
    pub open spec fn well_formatted(self) -> bool {
        &&& self.magic == MAGIC
        &&& self.version == FORMAT_VERSION
        &&& self.flags == 0
        &&& self.len <= MAX_PAYLOAD
    }

    /// The record is in this format and its checksum fits.
    pub open spec fn verified(self) -> bool {
        &&& self.well_formatted()
        &&& self.checksum == crc32c_of(self.checked_bytes())
    }

    /// The bytes that the record carries.
    pub open spec fn content(self) -> Seq<u8> {
        self.payload.take(self.len as int)
    }

    /// The record of `content` under a sequence number, with a zero checksum.
    pub open spec fn blank(sequence: SequenceNumber, content: Seq<u8>) -> RecordView {
        RecordView {
            sequence,
            checksum: 0,
            len: content.len() as u16,
            magic: MAGIC,
            payload: content + Seq::new((MAX_PAYLOAD - content.len()) as nat, |i: int| 0u8),
            version: FORMAT_VERSION,
            flags: 0,
        }
    }

    /// The record of `content` under a sequence number.
    pub open spec fn sealed(sequence: SequenceNumber, content: Seq<u8>) -> RecordView {
        let blank = Self::blank(sequence, content);
        RecordView { checksum: crc32c_of(blank.checked_bytes()), ..blank }
    }

    /// The fields that a disk form holds.
    pub open spec fn fields(bytes: Seq<u8>) -> RecordView {
        RecordView {
            sequence: SequenceNumber(read64(bytes, 4)),
            checksum: read32(bytes, 14),
            len: read16(bytes, 12),
            magic: read16(bytes, 0),
            payload: bytes.skip(18),
            version: bytes[2],
            flags: bytes[3],
        }
    }
}

/// What is wrong with the fields of a disk form, if anything is.
pub open spec fn format_fault(bytes: Seq<u8>) -> Option<DecodeError> {
    let record = RecordView::fields(bytes);
    if record.magic != MAGIC {
        Some(DecodeError::BadMagic { found: record.magic })
    } else if record.version != FORMAT_VERSION {
        Some(DecodeError::UnsupportedVersion { found: record.version })
    } else if record.flags != 0 {
        Some(DecodeError::UnsupportedFlags { found: record.flags })
    } else if record.len > MAX_PAYLOAD {
        Some(DecodeError::PayloadLength { found: record.len })
    } else {
        None
    }
}

/// What is wrong with a disk form, if anything is, given the checksum of its
/// bytes under a zero checksum field.
pub open spec fn fault_with(bytes: Seq<u8>, computed: u32) -> Option<DecodeError> {
    let record = RecordView::fields(bytes);
    if format_fault(bytes) is Some {
        format_fault(bytes)
    } else if record.checksum != computed {
        Some(DecodeError::ChecksumMismatch { sequence: record.sequence })
    } else {
        None
    }
}

/// What is wrong with a disk form, if anything is.
pub open spec fn decode_fault(bytes: Seq<u8>) -> Option<DecodeError> {
    fault_with(bytes, crc32c_of(RecordView::fields(bytes).checked_bytes()))
}

#[derive(Clone, Copy, Debug, PartialEq, Eq)]
pub struct JournalRecord {
    sequence: SequenceNumber,
    checksum: u32,
    len: u16,
    magic: u16,
    payload: [u8; MAX_PAYLOAD],
    version: u8,
    flags: u8,
}

impl View for JournalRecord {
    type V = RecordView;

    closed spec fn view(&self) -> RecordView {
        RecordView {
            sequence: self.sequence,
            checksum: self.checksum,
            len: self.len,
            magic: self.magic,
            payload: self.payload@,
            version: self.version,
            flags: self.flags,
        }
    }
}

impl JournalRecord {
    /// A record has a payload field of fixed size.
    pub proof fn lemma_payload(&self)
        ensures
            self@.payload.len() == MAX_PAYLOAD,
    {
    }

    /// Builds one record with a zero checksum, without truncating its payload.
    pub fn blank(sequence: SequenceNumber, payload: &[u8]) -> (outcome: Result<Self, JournalError>)
        ensures
            if payload@.len() > MAX_PAYLOAD {
                outcome is Err && outcome->Err_0 == (JournalError::PayloadTooLarge {
                    len: payload@.len() as usize,
                })
            } else {
                outcome is Ok && outcome->Ok_0@ == RecordView::blank(sequence, payload@)
            },
    {
        let count: usize = payload.len();
        if count > MAX_PAYLOAD {
            return Err(JournalError::PayloadTooLarge { len: count });
        }
        let mut stored: [u8; MAX_PAYLOAD] = [0u8; MAX_PAYLOAD];
        let mut i: usize = 0;
        while i < count
            invariant
                i <= count <= MAX_PAYLOAD,
                count == payload@.len(),
                forall|j: int| 0 <= j < i ==> #[trigger] stored@[j] == payload@[j],
                forall|j: int| i <= j < MAX_PAYLOAD ==> #[trigger] stored@[j] == 0,
            decreases count - i,
        {
            stored[i] = payload[i];
            i = i + 1;
        }
        let record = JournalRecord {
            sequence,
            checksum: 0,
            len: count as u16,
            magic: MAGIC,
            payload: stored,
            version: FORMAT_VERSION,
            flags: 0,
        };
        assert(record@.payload =~= RecordView::blank(sequence, payload@).payload);
        Ok(record)
    }

    /// The record with `checksum` in its checksum field.
    pub fn with_checksum(self, checksum: u32) -> (record: Self)
        ensures
            record@ == (RecordView { checksum, ..self@ }),
    {
        JournalRecord { checksum, ..self }
    }

    /// Builds one record without truncating its payload.
    pub fn new(sequence: SequenceNumber, payload: &[u8]) -> (outcome: Result<Self, JournalError>)
        ensures
            if payload@.len() > MAX_PAYLOAD {
                outcome is Err && outcome->Err_0 == (JournalError::PayloadTooLarge {
                    len: payload@.len() as usize,
                })
            } else {
                &&& outcome is Ok
                &&& outcome->Ok_0@ == RecordView::sealed(sequence, payload@)
                &&& outcome->Ok_0@.verified()
                &&& outcome->Ok_0@.content() == payload@
            },
    {
        match Self::blank(sequence, payload) {
            Ok(record) => {
                let checksum = record_checksum(record.bytes_without_checksum().as_slice());
                let sealed = record.with_checksum(checksum);
                assert(sealed@.checked_bytes() == record@.checked_bytes());
                assert(sealed@.content() =~= payload@);
                Ok(sealed)
            },
            Err(error) => Err(error),
        }
    }

    #[must_use]
    pub fn sequence(&self) -> (sequence: SequenceNumber)
        ensures
            sequence == self@.sequence,
    {
        self.sequence
    }

    /// The payload, where its length is one that the record can hold.
    #[must_use]
    pub fn slice(&self) -> (content: Option<&[u8]>)
        ensures
            content is Some <==> self@.len <= MAX_PAYLOAD,
            content is Some ==> content->0@ == self@.content(),
    {
        let count: usize = self.len as usize;
        if count > MAX_PAYLOAD {
            return None;
        }
        Some(vstd::slice::slice_subrange(self.payload.as_slice(), 0, count))
    }

    /// The whole payload field.
    pub(crate) fn raw_payload(&self) -> (bytes: &[u8])
        ensures
            bytes@ == self@.payload,
    {
        self.payload.as_slice()
    }

    /// Whether the record is in this format, but for its checksum.
    pub fn formatted(&self) -> (valid: bool)
        ensures
            valid == self@.well_formatted(),
    {
        self.magic == MAGIC && self.version == FORMAT_VERSION && self.flags == 0
            && self.len as usize <= MAX_PAYLOAD
    }

    /// Whether the record is in this format and its checksum fits.
    #[must_use]
    pub fn verify(&self) -> (valid: bool)
        ensures
            valid == self@.verified(),
    {
        self.formatted() && self.checksum == record_checksum(
            self.bytes_without_checksum().as_slice(),
        )
    }

    /// The disk form with a zero checksum field.
    pub fn bytes_without_checksum(&self) -> (bytes: [u8; RECORD_SIZE])
        ensures
            bytes@ == self@.checked_bytes(),
    {
        let mut bytes: [u8; RECORD_SIZE] = [0u8; RECORD_SIZE];
        put16(&mut bytes, 0, self.magic);
        bytes[2] = self.version;
        bytes[3] = self.flags;
        put64(&mut bytes, 4, self.sequence.0);
        put16(&mut bytes, 12, self.len);
        put32(&mut bytes, CHECKSUM_OFFSET, 0);
        let ghost header = bytes@.take(18);
        let mut i: usize = 0;
        while i < MAX_PAYLOAD
            invariant
                i <= MAX_PAYLOAD,
                bytes@.take(18) == header,
                forall|j: int| 0 <= j < i ==> #[trigger] bytes@[18 + j] == self.payload@[j],
            decreases MAX_PAYLOAD - i,
        {
            let ghost before = bytes@;
            bytes[PAYLOAD_OFFSET + i] = self.payload[i];
            assert(bytes@.take(18) =~= before.take(18));
            i = i + 1;
        }
        proof {
            let expected = self@.checked_bytes();
            assert(header =~= expected.take(18));
            assert forall|j: int| 0 <= j < RECORD_SIZE implies bytes@[j] == expected[j] by {
                if j < 18 {
                    assert(bytes@.take(18)[j] == expected.take(18)[j]);
                } else {
                    assert(bytes@[18 + (j - 18)] == self.payload@[j - 18]);
                }
            }
            assert(bytes@ =~= expected);
        }
        bytes
    }

    /// The disk form.
    #[must_use]
    pub fn encode(&self) -> (bytes: [u8; RECORD_SIZE])
        ensures
            bytes@ == self@.encoded(),
    {
        let mut bytes = self.bytes_without_checksum();
        put32(&mut bytes, CHECKSUM_OFFSET, self.checksum);
        assert(bytes@ =~= self@.encoded());
        bytes
    }

    /// The fields of a disk form, where this format can have written them. The
    /// checksum is not looked at.
    pub fn parse(bytes: &[u8; RECORD_SIZE]) -> (outcome: Result<Self, DecodeError>)
        ensures
            match format_fault(bytes@) {
                Some(error) => outcome is Err && outcome->Err_0 == error,
                None => outcome is Ok && outcome->Ok_0@ == RecordView::fields(bytes@),
            },
    {
        let magic: u16 = get16(bytes, 0);
        if magic != MAGIC {
            return Err(DecodeError::BadMagic { found: magic });
        }
        let version: u8 = bytes[2];
        if version != FORMAT_VERSION {
            return Err(DecodeError::UnsupportedVersion { found: version });
        }
        let flags: u8 = bytes[3];
        if flags != 0 {
            return Err(DecodeError::UnsupportedFlags { found: flags });
        }
        let sequence = SequenceNumber(get64(bytes, 4));
        let len: u16 = get16(bytes, 12);
        if len as usize > MAX_PAYLOAD {
            return Err(DecodeError::PayloadLength { found: len });
        }
        let checksum: u32 = get32(bytes, CHECKSUM_OFFSET);
        let mut payload: [u8; MAX_PAYLOAD] = [0u8; MAX_PAYLOAD];
        let mut i: usize = 0;
        while i < MAX_PAYLOAD
            invariant
                i <= MAX_PAYLOAD,
                forall|j: int| 0 <= j < i ==> #[trigger] payload@[j] == bytes@[18 + j],
            decreases MAX_PAYLOAD - i,
        {
            payload[i] = bytes[PAYLOAD_OFFSET + i];
            i = i + 1;
        }
        let record = JournalRecord { sequence, checksum, len, magic, payload, version, flags };
        assert(record@ =~= RecordView::fields(bytes@));
        Ok(record)
    }

    /// Decodes one complete disk record, given the checksum of its bytes under
    /// a zero checksum field.
    pub fn decode_with(bytes: &[u8; RECORD_SIZE], computed: u32) -> (outcome: Result<
        Self,
        DecodeError,
    >)
        ensures
            match fault_with(bytes@, computed) {
                Some(error) => outcome is Err && outcome->Err_0 == error,
                None => outcome is Ok && outcome->Ok_0@ == RecordView::fields(bytes@),
            },
    {
        match Self::parse(bytes) {
            Ok(record) => {
                if record.checksum != computed {
                    Err(DecodeError::ChecksumMismatch { sequence: record.sequence })
                } else {
                    Ok(record)
                }
            },
            Err(error) => Err(error),
        }
    }

    /// Decodes and verifies one complete disk record.
    pub fn decode(bytes: &[u8; RECORD_SIZE]) -> (outcome: Result<Self, DecodeError>)
        ensures
            match decode_fault(bytes@) {
                Some(error) => outcome is Err && outcome->Err_0 == error,
                None => {
                    &&& outcome is Ok
                    &&& outcome->Ok_0@ == RecordView::fields(bytes@)
                    &&& outcome->Ok_0@.verified()
                },
            },
    {
        match Self::parse(bytes) {
            Ok(record) => {
                let computed = record_checksum(record.bytes_without_checksum().as_slice());
                Self::decode_with(bytes, computed)
            },
            Err(error) => Err(error),
        }
    }
}

/// A disk form reads back as the record that wrote it.
pub proof fn law_fields_of_encoded(record: RecordView)
    requires
        record.payload.len() == MAX_PAYLOAD,
    ensures
        record.encoded().len() == RECORD_SIZE,
        RecordView::fields(record.encoded()) == record,
{
    let bytes = record.encoded();
    lemma_join16(record.magic);
    lemma_join64(record.sequence.0);
    lemma_join16(record.len);
    lemma_join32(record.checksum);
    assert(bytes.skip(18) =~= record.payload);
    assert(read16(bytes, 0) == record.magic);
    assert(read64(bytes, 4) == record.sequence.0);
    assert(read16(bytes, 12) == record.len);
    assert(read32(bytes, 14) == record.checksum);
}

/// Decoding undoes encoding: the disk form of a verified record has no fault
/// and holds that record.
pub proof fn law_decode_undoes_encode(record: RecordView)
    requires
        record.payload.len() == MAX_PAYLOAD,
        record.verified(),
    ensures
        decode_fault(record.encoded()) is None,
        RecordView::fields(record.encoded()) == record,
{
    law_fields_of_encoded(record);
}

/// Encoding undoes decoding: the fields of a disk form write the same disk
/// form.
pub proof fn law_encode_undoes_decode(bytes: Seq<u8>)
    requires
        bytes.len() == RECORD_SIZE,
    ensures
        RecordView::fields(bytes).encoded() == bytes,
{
    lemma_split16(bytes[0], bytes[1]);
    lemma_split64(
        bytes[4],
        bytes[5],
        bytes[6],
        bytes[7],
        bytes[8],
        bytes[9],
        bytes[10],
        bytes[11],
    );
    lemma_split16(bytes[12], bytes[13]);
    lemma_split32(bytes[14], bytes[15], bytes[16], bytes[17]);
    assert(RecordView::fields(bytes).encoded() =~= bytes);
}

} // verus!
