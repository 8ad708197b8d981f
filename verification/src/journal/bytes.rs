//! Big-endian integers in byte strings.

use vstd::prelude::*;

verus! {

pub open spec fn join16(b0: u8, b1: u8) -> u16 {
    ((b0 as u16) << 8) | (b1 as u16)
}

pub open spec fn join32(b0: u8, b1: u8, b2: u8, b3: u8) -> u32 {
    ((b0 as u32) << 24) | ((b1 as u32) << 16) | ((b2 as u32) << 8) | (b3 as u32)
}

pub open spec fn join64(
    b0: u8,
    b1: u8,
    b2: u8,
    b3: u8,
    b4: u8,
    b5: u8,
    b6: u8,
    b7: u8,
) -> u64 {
    ((b0 as u64) << 56) | ((b1 as u64) << 48) | ((b2 as u64) << 40) | ((b3 as u64) << 32) | ((
    b4 as u64) << 24) | ((b5 as u64) << 16) | ((b6 as u64) << 8) | (b7 as u64)
}

/// The two bytes of a 16-bit value, most significant first.
pub open spec fn be16(value: u16) -> Seq<u8> {
    seq![(value >> 8) as u8, value as u8]
}

/// The four bytes of a 32-bit value, most significant first.
pub open spec fn be32(value: u32) -> Seq<u8> {
    seq![(value >> 24) as u8, (value >> 16) as u8, (value >> 8) as u8, value as u8]
}

/// The eight bytes of a 64-bit value, most significant first.
pub open spec fn be64(value: u64) -> Seq<u8> {
    seq![
        (value >> 56) as u8,
        (value >> 48) as u8,
        (value >> 40) as u8,
        (value >> 32) as u8,
        (value >> 24) as u8,
        (value >> 16) as u8,
        (value >> 8) as u8,
        value as u8,
    ]
}

pub open spec fn read16(bytes: Seq<u8>, at: int) -> u16 {
    join16(bytes[at], bytes[at + 1])
}

pub open spec fn read32(bytes: Seq<u8>, at: int) -> u32 {
    join32(bytes[at], bytes[at + 1], bytes[at + 2], bytes[at + 3])
}

pub open spec fn read64(bytes: Seq<u8>, at: int) -> u64 {
    join64(
        bytes[at],
        bytes[at + 1],
        bytes[at + 2],
        bytes[at + 3],
        bytes[at + 4],
        bytes[at + 5],
        bytes[at + 6],
        bytes[at + 7],
    )
}

pub proof fn lemma_join16(value: u16)
    by (bit_vector)
    ensures
        join16((value >> 8) as u8, value as u8) == value,
{
}

pub proof fn lemma_join32(value: u32)
    by (bit_vector)
    ensures
        join32((value >> 24) as u8, (value >> 16) as u8, (value >> 8) as u8, value as u8) == value,
{
}

pub proof fn lemma_join64(value: u64)
    by (bit_vector)
    ensures
        join64(
            (value >> 56) as u8,
            (value >> 48) as u8,
            (value >> 40) as u8,
            (value >> 32) as u8,
            (value >> 24) as u8,
            (value >> 16) as u8,
            (value >> 8) as u8,
            value as u8,
        ) == value,
{
}

pub proof fn lemma_split16(b0: u8, b1: u8)
    by (bit_vector)
    ensures
        (join16(b0, b1) >> 8) as u8 == b0,
        join16(b0, b1) as u8 == b1,
{
}

pub proof fn lemma_split32(b0: u8, b1: u8, b2: u8, b3: u8)
    by (bit_vector)
    ensures
        (join32(b0, b1, b2, b3) >> 24) as u8 == b0,
        (join32(b0, b1, b2, b3) >> 16) as u8 == b1,
        (join32(b0, b1, b2, b3) >> 8) as u8 == b2,
        join32(b0, b1, b2, b3) as u8 == b3,
{
}

pub proof fn lemma_split64(b0: u8, b1: u8, b2: u8, b3: u8, b4: u8, b5: u8, b6: u8, b7: u8)
    by (bit_vector)
    ensures
        (join64(b0, b1, b2, b3, b4, b5, b6, b7) >> 56) as u8 == b0,
        (join64(b0, b1, b2, b3, b4, b5, b6, b7) >> 48) as u8 == b1,
        (join64(b0, b1, b2, b3, b4, b5, b6, b7) >> 40) as u8 == b2,
        (join64(b0, b1, b2, b3, b4, b5, b6, b7) >> 32) as u8 == b3,
        (join64(b0, b1, b2, b3, b4, b5, b6, b7) >> 24) as u8 == b4,
        (join64(b0, b1, b2, b3, b4, b5, b6, b7) >> 16) as u8 == b5,
        (join64(b0, b1, b2, b3, b4, b5, b6, b7) >> 8) as u8 == b6,
        join64(b0, b1, b2, b3, b4, b5, b6, b7) as u8 == b7,
{
}

/// Writes a 16-bit value at a position, most significant byte first.
pub fn put16<const N: usize>(bytes: &mut [u8; N], at: usize, value: u16)
    requires
        at + 2 <= N,
    ensures
        final(bytes)@ == old(bytes)@.take(at as int) + be16(value) + old(bytes)@.skip(at + 2),
{
    let ghost before = bytes@;
    bytes[at] = (value >> 8) as u8;
    bytes[at + 1] = #[verifier::truncate]
    (value as u8);
    assert(bytes@ =~= before.take(at as int) + be16(value) + before.skip(at + 2));
}

/// Writes a 32-bit value at a position, most significant byte first.
pub fn put32<const N: usize>(bytes: &mut [u8; N], at: usize, value: u32)
    requires
        at + 4 <= N,
    ensures
        final(bytes)@ == old(bytes)@.take(at as int) + be32(value) + old(bytes)@.skip(at + 4),
{
    let ghost before = bytes@;
    bytes[at] = #[verifier::truncate]
    ((value >> 24) as u8);
    bytes[at + 1] = #[verifier::truncate]
    ((value >> 16) as u8);
    bytes[at + 2] = #[verifier::truncate]
    ((value >> 8) as u8);
    bytes[at + 3] = #[verifier::truncate]
    (value as u8);
    assert(bytes@ =~= before.take(at as int) + be32(value) + before.skip(at + 4));
}

/// Writes a 64-bit value at a position, most significant byte first.
pub fn put64<const N: usize>(bytes: &mut [u8; N], at: usize, value: u64)
    requires
        at + 8 <= N,
    ensures
        final(bytes)@ == old(bytes)@.take(at as int) + be64(value) + old(bytes)@.skip(at + 8),
{
    let ghost before = bytes@;
    bytes[at] = #[verifier::truncate]
    ((value >> 56) as u8);
    bytes[at + 1] = #[verifier::truncate]
    ((value >> 48) as u8);
    bytes[at + 2] = #[verifier::truncate]
    ((value >> 40) as u8);
    bytes[at + 3] = #[verifier::truncate]
    ((value >> 32) as u8);
    bytes[at + 4] = #[verifier::truncate]
    ((value >> 24) as u8);
    bytes[at + 5] = #[verifier::truncate]
    ((value >> 16) as u8);
    bytes[at + 6] = #[verifier::truncate]
    ((value >> 8) as u8);
    bytes[at + 7] = #[verifier::truncate]
    (value as u8);
    assert(bytes@ =~= before.take(at as int) + be64(value) + before.skip(at + 8));
}

pub fn get16<const N: usize>(bytes: &[u8; N], at: usize) -> (value: u16)
    requires
        at + 2 <= N,
    ensures
        value == read16(bytes@, at as int),
{
    ((bytes[at] as u16) << 8) | (bytes[at + 1] as u16)
}

pub fn get32<const N: usize>(bytes: &[u8; N], at: usize) -> (value: u32)
    requires
        at + 4 <= N,
    ensures
        value == read32(bytes@, at as int),
{
    ((bytes[at] as u32) << 24) | ((bytes[at + 1] as u32) << 16) | ((bytes[at + 2] as u32) << 8) | (
    bytes[at + 3] as u32)
}

pub fn get64<const N: usize>(bytes: &[u8; N], at: usize) -> (value: u64)
    requires
        at + 8 <= N,
    ensures
        value == read64(bytes@, at as int),
{
    ((bytes[at] as u64) << 56) | ((bytes[at + 1] as u64) << 48) | ((bytes[at + 2] as u64) << 40)
        | ((bytes[at + 3] as u64) << 32) | ((bytes[at + 4] as u64) << 24) | ((bytes[at
        + 5] as u64) << 16) | ((bytes[at + 6] as u64) << 8) | (bytes[at + 7] as u64)
}

} // verus!
