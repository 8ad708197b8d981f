//! A lane-wise byte hash, kept for comparison with the journal's checksum.

use vstd::prelude::*;

use crate::digest::{law_mixing_keeps_apart, mixed};
use crate::journal::bytes::{be64, put64};

verus! {

pub const FNV_OFFSET: u64 = 0xcbf2_9ce4_8422_2325;

pub const FNV_PRIME: u64 = 0x0000_0100_0000_01b3;

/// One more byte in a lane.
pub open spec fn lane_with(lane: u64, byte: u8) -> u64 {
    (lane ^ (byte as u64)).wrapping_mul(FNV_PRIME)
}

/// The bytes of one row, each in the lane of its column.
pub open spec fn row_mixed(lanes: Seq<u64>, row: Seq<u8>) -> Seq<u64> {
    Seq::new(
        lanes.len(),
        |i: int|
            if i < row.len() {
                lane_with(lanes[i], row[i])
            } else {
                lanes[i]
            },
    )
}

/// The bytes in rows of eight, the last row as long as it is.
pub open spec fn rows_mixed(lanes: Seq<u64>, bytes: Seq<u8>) -> Seq<u64>
    decreases bytes.len(),
{
    if bytes.len() < 8 {
        row_mixed(lanes, bytes)
    } else {
        rows_mixed(row_mixed(lanes, bytes.take(8)), bytes.skip(8))
    }
}

/// The lanes folded into one value.
pub open spec fn lanes_folded(lanes: Seq<u64>) -> u64
    decreases lanes.len(),
{
    if lanes.len() == 0 {
        FNV_OFFSET
    } else {
        (lanes_folded(lanes.drop_last()) ^ lanes.last()).wrapping_mul(FNV_PRIME)
    }
}

/// The hash of a sequence and its payload.
pub open spec fn record_hash(sequence: u64, payload: Seq<u8>) -> u64 {
    let start = Seq::new(8, |i: int| FNV_OFFSET);
    lanes_folded(
        row_mixed(
            rows_mixed(row_mixed(start, be64(sequence)), payload),
            be64(payload.len() as u64),
        ),
    )
}

/// Mixes one row of `bytes`, from `from` on, into the lanes.
pub fn mix_fnv_columns(lanes: &mut [u64; 8], bytes: &[u8], from: usize, count: usize)
    requires
        count <= 8,
        from + count <= bytes@.len(),
    ensures
        final(lanes)@ == row_mixed(
            old(lanes)@,
            bytes@.subrange(from as int, from + count),
        ),
{
    let ghost row = bytes@.subrange(from as int, from + count);
    let mut column: usize = 0;
    while column < count
        invariant
            column <= count <= 8,
            from + count <= bytes@.len(),
            bytes@.len() == bytes.len(),
            row == bytes@.subrange(from as int, from + count),
            forall|i: int| 0 <= i < column ==> #[trigger] lanes@[i] == lane_with(old(lanes)@[i], row[i]),
            forall|i: int| column <= i < 8 ==> #[trigger] lanes@[i] == old(lanes)@[i],
        decreases count - column,
    {
        let byte: u8 = bytes[from + column];
        let lane: u64 = lanes[column];
        lanes[column] = (lane ^ (byte as u64)).wrapping_mul(FNV_PRIME);
        column = column + 1;
    }
    assert(lanes@ =~= row_mixed(old(lanes)@, row));
}

/// The hash of a sequence and its payload.
pub fn previous_record_checksum(sequence: u64, payload: &[u8]) -> (hash: u64)
    ensures
        hash == record_hash(sequence, payload@),
{
    let mut sequence_bytes: [u8; 8] = [0u8; 8];
    put64(&mut sequence_bytes, 0, sequence);
    let mut length_bytes: [u8; 8] = [0u8; 8];
    put64(&mut length_bytes, 0, payload.len() as u64);
    assert(sequence_bytes@ =~= be64(sequence));
    assert(length_bytes@ =~= be64(payload@.len() as u64));
    let mut lanes: [u64; 8] = [FNV_OFFSET; 8];
    let ghost start = Seq::new(8, |i: int| FNV_OFFSET);
    assert(lanes@ =~= start);
    mix_fnv_columns(&mut lanes, sequence_bytes.as_slice(), 0, 8);
    assert(sequence_bytes@.subrange(0, 8) =~= be64(sequence));
    let ghost first = lanes@;
    let total: usize = payload.len();
    let mut done: usize = 0;
    assert(payload@.skip(0) =~= payload@);
    while total - done >= 8
        invariant
            done <= total == payload@.len(),
            rows_mixed(first, payload@) == rows_mixed(lanes@, payload@.skip(done as int)),
        decreases total - done,
    {
        let ghost rest = payload@.skip(done as int);
        mix_fnv_columns(&mut lanes, payload, done, 8);
        proof {
            assert(payload@.subrange(done as int, done + 8) =~= rest.take(8));
            assert(rest.skip(8) =~= payload@.skip(done + 8));
        }
        done = done + 8;
    }
    mix_fnv_columns(&mut lanes, payload, done, total - done);
    assert(payload@.subrange(done as int, total as int) =~= payload@.skip(done as int));
    mix_fnv_columns(&mut lanes, length_bytes.as_slice(), 0, 8);
    assert(length_bytes@.subrange(0, 8) =~= be64(payload@.len() as u64));
    let mut hash: u64 = FNV_OFFSET;
    let mut lane: usize = 0;
    assert(lanes@.take(0) =~= Seq::<u64>::empty());
    while lane < 8
        invariant
            lane <= 8,
            hash == lanes_folded(lanes@.take(lane as int)),
        decreases 8 - lane,
    {
        assert(lanes@.take(lane + 1).drop_last() =~= lanes@.take(lane as int));
        hash = (hash ^ lanes[lane]).wrapping_mul(FNV_PRIME);
        lane = lane + 1;
    }
    assert(lanes@.take(8) =~= lanes@);
    hash
}

proof fn lemma_lane(lane: u64, byte: u8)
    ensures
        lane_with(lane, byte) == mixed(lane, byte as u64),
{
}

/// The lanes differ in one place alone.
spec fn one_apart(left: Seq<u64>, right: Seq<u64>, place: int) -> bool {
    &&& left.len() == right.len()
    &&& 0 <= place < left.len()
    &&& left[place] != right[place]
    &&& forall|i: int| 0 <= i < left.len() && i != place ==> left[i] == right[i]
}

proof fn lemma_row_keeps_apart(left: Seq<u64>, right: Seq<u64>, row: Seq<u8>, place: int)
    requires
        one_apart(left, right, place),
    ensures
        one_apart(row_mixed(left, row), row_mixed(right, row), place),
{
    if place < row.len() {
        lemma_lane(left[place], row[place]);
        lemma_lane(right[place], row[place]);
        law_mixing_keeps_apart(left[place], right[place], row[place] as u64, 0);
    }
}

proof fn lemma_row_tells_apart(lanes: Seq<u64>, left: Seq<u8>, right: Seq<u8>, place: int)
    requires
        left.len() == right.len() <= lanes.len(),
        0 <= place < left.len(),
        left[place] != right[place],
        forall|i: int| 0 <= i < left.len() && i != place ==> left[i] == right[i],
    ensures
        one_apart(row_mixed(lanes, left), row_mixed(lanes, right), place),
{
    lemma_lane(lanes[place], left[place]);
    lemma_lane(lanes[place], right[place]);
    law_mixing_keeps_apart(lanes[place], 0, left[place] as u64, right[place] as u64);
}

proof fn lemma_rows_keep_apart(left: Seq<u64>, right: Seq<u64>, bytes: Seq<u8>, place: int)
    requires
        one_apart(left, right, place),
    ensures
        one_apart(rows_mixed(left, bytes), rows_mixed(right, bytes), place),
    decreases bytes.len(),
{
    if bytes.len() < 8 {
        lemma_row_keeps_apart(left, right, bytes, place);
    } else {
        lemma_row_keeps_apart(left, right, bytes.take(8), place);
        lemma_rows_keep_apart(
            row_mixed(left, bytes.take(8)),
            row_mixed(right, bytes.take(8)),
            bytes.skip(8),
            place,
        );
    }
}

proof fn lemma_rows_tell_apart(lanes: Seq<u64>, left: Seq<u8>, right: Seq<u8>, place: int)
    requires
        lanes.len() == 8,
        left.len() == right.len(),
        0 <= place < left.len(),
        left[place] != right[place],
        forall|i: int| 0 <= i < left.len() && i != place ==> left[i] == right[i],
    ensures
        one_apart(rows_mixed(lanes, left), rows_mixed(lanes, right), place % 8),
    decreases left.len(),
{
    if left.len() < 8 {
        lemma_row_tells_apart(lanes, left, right, place);
    } else if place < 8 {
        let a = left.take(8);
        let b = right.take(8);
        lemma_row_tells_apart(lanes, a, b, place);
        assert(left.skip(8) =~= right.skip(8));
        lemma_rows_keep_apart(row_mixed(lanes, a), row_mixed(lanes, b), left.skip(8), place);
    } else {
        assert(left.take(8) =~= right.take(8));
        lemma_rows_tell_apart(
            row_mixed(lanes, left.take(8)),
            left.skip(8),
            right.skip(8),
            place - 8,
        );
    }
}

proof fn lemma_fold_tells_apart(left: Seq<u64>, right: Seq<u64>, place: int)
    requires
        one_apart(left, right, place),
    ensures
        lanes_folded(left) != lanes_folded(right),
    decreases left.len(),
{
    let a = left.drop_last();
    let b = right.drop_last();
    if place == left.len() - 1 {
        assert(a =~= b);
        law_mixing_keeps_apart(lanes_folded(a), 0, left.last(), right.last());
    } else {
        lemma_fold_tells_apart(a, b, place);
        law_mixing_keeps_apart(lanes_folded(a), lanes_folded(b), left.last(), 0);
    }
}

/// The hash tells two payloads apart that differ in one byte alone, and two sequences
/// whose big-endian forms do.
pub proof fn law_hash_sees_every_byte(
    sequence: u64,
    other: u64,
    left: Seq<u8>,
    right: Seq<u8>,
    place: int,
)
    ensures
        ({
            &&& left.len() == right.len()
            &&& 0 <= place < left.len()
            &&& left[place] != right[place]
            &&& forall|i: int| 0 <= i < left.len() && i != place ==> left[i] == right[i]
        }) ==> record_hash(sequence, left) != record_hash(sequence, right),
        ({
            &&& 0 <= place < 8
            &&& be64(sequence)[place] != be64(other)[place]
            &&& forall|i: int|
                0 <= i < 8 && i != place ==> be64(sequence)[i] == be64(other)[i]
        }) ==> record_hash(sequence, left) != record_hash(other, left),
{
    let start = Seq::new(8, |i: int| FNV_OFFSET);
    let lanes = row_mixed(start, be64(sequence));
    if left.len() == right.len() && 0 <= place < left.len() && left[place] != right[place] && (
    forall|i: int| 0 <= i < left.len() && i != place ==> left[i] == right[i]) {
        lemma_rows_tell_apart(lanes, left, right, place);
        let count = be64(left.len() as u64);
        let a = rows_mixed(lanes, left);
        let b = rows_mixed(lanes, right);
        lemma_row_keeps_apart(a, b, count, place % 8);
        lemma_fold_tells_apart(row_mixed(a, count), row_mixed(b, count), place % 8);
    }
    if 0 <= place < 8 && be64(sequence)[place] != be64(other)[place] && (forall|i: int|
        0 <= i < 8 && i != place ==> be64(sequence)[i] == be64(other)[i]) {
        let count = be64(left.len() as u64);
        lemma_row_tells_apart(start, be64(sequence), be64(other), place);
        let a = row_mixed(start, be64(sequence));
        let b = row_mixed(start, be64(other));
        lemma_rows_keep_apart(a, b, left, place);
        lemma_row_keeps_apart(rows_mixed(a, left), rows_mixed(b, left), count, place);
        lemma_fold_tells_apart(
            row_mixed(rows_mixed(a, left), count),
            row_mixed(rows_mixed(b, left), count),
            place,
        );
    }
}

} // verus!
