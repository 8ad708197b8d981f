//! The 64-bit mixing step shared by all state digests.

use vstd::prelude::*;

verus! {

pub const DIGEST_SEED: u64 = 0xcbf2_9ce4_8422_2325;

pub const DIGEST_PRIME: u64 = 0x0000_0100_0000_01b3;

/// `digest` with `value` folded in.
pub open spec fn mixed(digest: u64, value: u64) -> u64 {
    (digest ^ value).wrapping_mul(DIGEST_PRIME)
}

pub fn mix(digest: u64, value: u64) -> (next: u64)
    ensures
        next == mixed(digest, value),
{
    (digest ^ value).wrapping_mul(DIGEST_PRIME)
}

proof fn lemma_undone(value: u64)
    by (bit_vector)
    ensures
        ((value * 0x0000_0100_0000_01b3u64) as u64 * 0xce96_5057_aff6_957bu64) as u64 == value,
{
}

proof fn lemma_xor_apart(left: u64, right: u64, other: u64)
    by (bit_vector)
    ensures
        left != right ==> left ^ other != right ^ other,
        left != right ==> other ^ left != other ^ right,
{
}

proof fn lemma_product(value: u64)
    ensures
        value.wrapping_mul(DIGEST_PRIME) == (value * 0x0000_0100_0000_01b3u64) as u64,
{
    assert((value * 0x0000_0100_0000_01b3u64) as u64 == (value * 0x0000_0100_0000_01b3u64)
        % 0x1_0000_0000_0000_0000) by (bit_vector);
}

/// Folding a value in loses nothing: another value gives another digest, and so does
/// another digest to start from.
pub proof fn law_mixing_keeps_apart(digest: u64, other: u64, value: u64, changed: u64)
    ensures
        value != changed ==> mixed(digest, value) != mixed(digest, changed),
        digest != other ==> mixed(digest, value) != mixed(other, value),
{
    lemma_xor_apart(value, changed, digest);
    lemma_xor_apart(digest, other, value);
    lemma_undone(digest ^ value);
    lemma_undone(digest ^ changed);
    lemma_undone(other ^ value);
    lemma_product(digest ^ value);
    lemma_product(digest ^ changed);
    lemma_product(other ^ value);
}

/// `digest` with all the words folded in, one behind the other.
pub open spec fn folded(digest: u64, words: Seq<u64>) -> u64
    decreases words.len(),
{
    if words.len() == 0 {
        digest
    } else {
        mixed(folded(digest, words.drop_last()), words.last())
    }
}

pub proof fn lemma_folded_one(digest: u64, word: u64)
    ensures
        folded(digest, seq![word]) == mixed(digest, word),
{
    assert(seq![word].drop_last() =~= Seq::<u64>::empty());
    assert(folded(digest, Seq::<u64>::empty()) == digest);
}

pub proof fn lemma_folded_join(digest: u64, first: Seq<u64>, second: Seq<u64>)
    ensures
        folded(digest, first + second) == folded(folded(digest, first), second),
    decreases second.len(),
{
    if second.len() == 0 {
        assert(first + second =~= first);
    } else {
        assert((first + second).drop_last() =~= first + second.drop_last());
        lemma_folded_join(digest, first, second.drop_last());
    }
}

/// Two lists of words that differ in one place alone have different digests.
pub proof fn law_one_word_tells_digests_apart(
    digest: u64,
    left: Seq<u64>,
    right: Seq<u64>,
    place: int,
)
    requires
        left.len() == right.len(),
        0 <= place < left.len(),
        left[place] != right[place],
        forall|i: int| 0 <= i < left.len() && i != place ==> left[i] == right[i],
    ensures
        folded(digest, left) != folded(digest, right),
    decreases left.len(),
{
    let a = left.drop_last();
    let b = right.drop_last();
    if place == left.len() - 1 {
        assert(a =~= b);
        law_mixing_keeps_apart(folded(digest, a), 0, left.last(), right.last());
    } else {
        law_one_word_tells_digests_apart(digest, a, b, place);
        law_mixing_keeps_apart(folded(digest, a), folded(digest, b), left.last(), 0);
    }
}

} // verus!
