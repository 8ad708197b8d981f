//! Percentiles and mean of a sample set.

use vstd::prelude::*;

verus! {

/// Percentiles and mean for one sample set. The mean is reported for continuity
/// but is outlier-sensitive; p50 to p99.9 are the robust shape, and max records
/// the worst observed scheduler interference.
#[derive(Clone, Copy, Debug, PartialEq, Eq, Structural)]
pub struct SampleStats {
    pub mean: u128,
    pub p50: u64,
    pub p90: u64,
    pub p99: u64,
    pub p99_9: u64,
    pub max: u64,
}

/// The samples ascend.
pub open spec fn sorted(samples: Seq<u64>) -> bool {
    forall|i: int, j: int| 0 <= i <= j < samples.len() ==> samples[i] <= samples[j]
}

pub open spec fn sum(samples: Seq<u64>) -> int
    decreases samples.len(),
{
    if samples.len() == 0 {
        0
    } else {
        sum(samples.drop_last()) + samples.last()
    }
}

/// The nearest rank of a permille, counted from zero.
pub open spec fn rank(count: nat, permille: nat) -> int {
    let product = if count * permille > usize::MAX {
        usize::MAX as int
    } else {
        (count * permille) as int
    };
    let upper = (product + 999) / 1000;
    if upper == 0 {
        0
    } else if upper - 1 >= count {
        count - 1
    } else {
        upper - 1
    }
}

/// The statistics of a sorted sample set.
pub open spec fn stats_of(samples: Seq<u64>) -> SampleStats {
    SampleStats {
        mean: (sum(samples) / samples.len() as int) as u128,
        p50: samples[rank(samples.len(), 500)],
        p90: samples[rank(samples.len(), 900)],
        p99: samples[rank(samples.len(), 990)],
        p99_9: samples[rank(samples.len(), 999)],
        max: samples[samples.len() - 1],
    }
}

pub proof fn lemma_rank(count: nat, permille: nat)
    requires
        count > 0,
    ensures
        0 <= rank(count, permille) < count,
{
}

/// A larger permille has a rank that is no smaller.
pub proof fn law_rank_ascends(count: nat, lower: nat, higher: nat)
    requires
        count > 0,
        lower <= higher,
    ensures
        rank(count, lower) <= rank(count, higher),
{
    assert(count * lower <= count * higher) by (nonlinear_arith)
        requires
            lower <= higher,
    ;
}

/// The percentiles of a sorted sample set ascend, and the greatest is no greater
/// than the maximum.
pub proof fn law_percentiles_ascend(samples: Seq<u64>)
    requires
        samples.len() > 0,
        sorted(samples),
    ensures
        stats_of(samples).p50 <= stats_of(samples).p90,
        stats_of(samples).p90 <= stats_of(samples).p99,
        stats_of(samples).p99 <= stats_of(samples).p99_9,
        stats_of(samples).p99_9 <= stats_of(samples).max,
{
    let count = samples.len();
    law_rank_ascends(count, 500, 900);
    law_rank_ascends(count, 900, 990);
    law_rank_ascends(count, 990, 999);
    lemma_rank(count, 500);
    lemma_rank(count, 900);
    lemma_rank(count, 990);
    lemma_rank(count, 999);
}

/// A percentile is no smaller than its share of the samples: the samples up to
/// its rank are no greater, and the rank leaves out no more than the rest.
pub proof fn law_percentile_covers_its_share(samples: Seq<u64>, permille: nat, index: int)
    requires
        samples.len() > 0,
        sorted(samples),
        permille <= 1000,
        samples.len() * permille <= usize::MAX,
        0 <= index <= rank(samples.len(), permille),
    ensures
        samples[index] <= samples[rank(samples.len(), permille)],
        (rank(samples.len(), permille) + 1) * 1000 >= samples.len() * permille,
{
    let count = samples.len();
    lemma_rank(count, permille);
    assert(count * permille <= count * 1000) by (nonlinear_arith)
        requires
            permille <= 1000,
    ;
}

/// The mean lies between the least and the greatest sample.
pub proof fn law_mean_is_between(samples: Seq<u64>)
    requires
        samples.len() > 0,
        sorted(samples),
        samples.len() <= usize::MAX,
    ensures
        samples[0] <= stats_of(samples).mean <= samples[samples.len() - 1],
{
    let count = samples.len() as int;
    let least = samples[0] as int;
    let most = samples[count - 1] as int;
    lemma_sum_bounds(samples, least, most);
    let total = sum(samples);
    assert(least <= total / count <= most) by (nonlinear_arith)
        requires
            count > 0,
            least * count <= total <= most * count,
    ;
}

pub proof fn lemma_sum_bounds(samples: Seq<u64>, least: int, most: int)
    requires
        forall|i: int| 0 <= i < samples.len() ==> least <= #[trigger] samples[i] <= most,
    ensures
        least * samples.len() <= sum(samples) <= most * samples.len(),
    decreases samples.len(),
{
    if samples.len() > 0 {
        lemma_sum_bounds(samples.drop_last(), least, most);
        let count = samples.len() as int;
        assert(least * (count - 1) + least == least * count) by (nonlinear_arith);
        assert(most * (count - 1) + most == most * count) by (nonlinear_arith);
    }
}

/// The samples up to `count` ascend.
spec fn sorted_to(samples: Seq<u64>, count: int) -> bool {
    forall|i: int, j: int| 0 <= i <= j < count ==> samples[i] <= samples[j]
}

/// The samples up to `last` ascend but for the one at `moving`, which is no
/// greater than those behind it.
spec fn sorted_around(samples: Seq<u64>, moving: int, last: int) -> bool {
    &&& forall|i: int, j: int|
        0 <= i <= j <= last && i != moving && j != moving ==> samples[i] <= samples[j]
    &&& forall|j: int| moving < j <= last ==> samples[moving] <= #[trigger] samples[j]
}

proof fn lemma_exchanged(before: Seq<u64>, after: Seq<u64>, at: int)
    requires
        0 < at < before.len(),
        after == before.update(at - 1, before[at]).update(at, before[at - 1]),
    ensures
        after.to_multiset() == before.to_multiset(),
{
    vstd::seq_lib::to_multiset_update(before, at - 1, before[at]);
    let middle = before.update(at - 1, before[at]);
    vstd::seq_lib::to_multiset_update(middle, at, before[at - 1]);
    vstd::seq_lib::to_multiset_contains(before, before[at]);
    vstd::seq_lib::to_multiset_contains(before, before[at - 1]);
    assert(after.to_multiset() =~= before.to_multiset());
}

/// Moves the sample at `last` to its place among those before it.
fn place(samples: &mut Vec<u64>, last: usize)
    requires
        last < old(samples)@.len(),
        sorted_to(old(samples)@, last as int),
    ensures
        final(samples)@.len() == old(samples)@.len(),
        sorted_to(final(samples)@, last + 1),
        final(samples)@.to_multiset() == old(samples)@.to_multiset(),
{
    let mut at: usize = last;
    while at > 0 && samples[at - 1] > samples[at]
        invariant
            at <= last < samples@.len(),
            samples@.len() == old(samples)@.len(),
            sorted_around(samples@, at as int, last as int),
            samples@.to_multiset() == old(samples)@.to_multiset(),
        decreases at,
    {
        let ghost before = samples@;
        let lower: u64 = samples[at - 1];
        let upper: u64 = samples[at];
        samples[at - 1] = upper;
        samples[at] = lower;
        proof {
            lemma_exchanged(before, samples@, at as int);
        }
        at = at - 1;
    }
}

/// Puts the samples in ascending order.
pub fn sort_samples(samples: &mut Vec<u64>)
    ensures
        sorted(final(samples)@),
        final(samples)@.len() == old(samples)@.len(),
        final(samples)@.to_multiset() == old(samples)@.to_multiset(),
{
    let mut done: usize = 0;
    while done < samples.len()
        invariant
            done <= samples@.len() == old(samples)@.len(),
            sorted_to(samples@, done as int),
            samples@.to_multiset() == old(samples)@.to_multiset(),
        decreases samples@.len() - done,
    {
        place(samples, done);
        done = done + 1;
    }
}

/// The sample at the nearest rank of a permille.
pub fn percentile(samples: &Vec<u64>, permille: usize) -> (sample: u64)
    requires
        samples@.len() > 0,
    ensures
        sample == samples@[rank(samples@.len(), permille as nat)],
{
    let count: usize = samples.len();
    let product: usize = match count.checked_mul(permille) {
        Some(product) => product,
        None => usize::MAX,
    };
    let upper: usize = product / 1000 + if product % 1000 == 0 {
        0
    } else {
        1
    };
    let index: usize = if upper == 0 {
        0
    } else if upper - 1 >= count {
        count - 1
    } else {
        upper - 1
    };
    samples[index]
}

/// Sorts the sample set and derives percentiles plus the arithmetic mean.
pub fn analyze(samples: &mut Vec<u64>) -> (stats: SampleStats)
    requires
        old(samples)@.len() > 0,
    ensures
        sorted(final(samples)@),
        final(samples)@.len() == old(samples)@.len(),
        final(samples)@.to_multiset() == old(samples)@.to_multiset(),
        stats == stats_of(final(samples)@),
{
    sort_samples(samples);
    let count: usize = samples.len();
    let mut total: u128 = 0;
    let mut index: usize = 0;
    assert(samples@.take(0) =~= Seq::<u64>::empty());
    while index < count
        invariant
            index <= count == samples@.len(),
            total == sum(samples@.take(index as int)),
            total <= index * u64::MAX,
        decreases count - index,
    {
        let ghost next = samples@.take(index + 1);
        assert(next.drop_last() =~= samples@.take(index as int));
        assert(index * u64::MAX + u64::MAX == (index + 1) * u64::MAX) by (nonlinear_arith);
        assert((index + 1) * u64::MAX <= usize::MAX * u64::MAX) by (nonlinear_arith)
            requires
                index + 1 <= usize::MAX,
        ;
        assert(usize::MAX * u64::MAX <= u128::MAX) by {
            assert(usize::MAX <= 0xffff_ffff_ffff_ffff);
            assert(0xffff_ffff_ffff_ffffint * 0xffff_ffff_ffff_ffffint <= u128::MAX);
            assert(usize::MAX * u64::MAX <= 0xffff_ffff_ffff_ffff * u64::MAX) by (nonlinear_arith)
                requires
                    usize::MAX <= 0xffff_ffff_ffff_ffff,
            ;
        }
        total = total + samples[index] as u128;
        index = index + 1;
    }
    assert(samples@.take(index as int) =~= samples@);
    SampleStats {
        mean: total / (count as u128),
        p50: percentile(samples, 500),
        p90: percentile(samples, 900),
        p99: percentile(samples, 990),
        p99_9: percentile(samples, 999),
        max: samples[count - 1],
    }
}

/// The sum grows by each sample.
pub proof fn law_sum_adds_each_sample(samples: Seq<u64>, sample: u64)
    ensures
        sum(Seq::<u64>::empty()) == 0,
        sum(samples.push(sample)) == sum(samples) + sample,
{
    assert(samples.push(sample).drop_last() =~= samples);
}

/// The statistics of a sorted sample set: each percentile is the first sample with at
/// least its share of all samples up to it, the maximum is the last sample, and the
/// mean is the sum over the count, rounded down.
pub proof fn law_percentiles_are_nearest_ranks(samples: Seq<u64>)
    requires
        samples.len() > 0,
        samples.len() * 1000 <= usize::MAX,
    ensures
        ({
            let stats = stats_of(samples);
            let count = samples.len() as int;
            &&& stats.p50 == samples[(count * 500 + 999) / 1000 - 1]
            &&& stats.p90 == samples[(count * 900 + 999) / 1000 - 1]
            &&& stats.p99 == samples[(count * 990 + 999) / 1000 - 1]
            &&& stats.p99_9 == samples[(count * 999 + 999) / 1000 - 1]
            &&& stats.max == samples[count - 1]
            &&& stats.mean * count <= sum(samples) < (stats.mean + 1) * count
        }),
{
    let count = samples.len() as int;
    let total = sum(samples);
    lemma_sum_bounds(samples, 0, u64::MAX as int);
    assert(0 <= total / count <= u64::MAX) by (nonlinear_arith)
        requires
            count > 0,
            0 <= total <= u64::MAX * count,
    ;
    let mean = total / count;
    assert(mean * count <= total < (mean + 1) * count) by (nonlinear_arith)
        requires
            count > 0,
            mean == total / count,
    ;
}

/// The nearest rank of a permille: the samples up to it are its share of all samples at
/// least, and those before it are not.
pub proof fn law_rank_is_nearest(count: nat, permille: nat)
    requires
        0 < permille <= 1000,
        count > 0,
        count * permille <= usize::MAX,
    ensures
        rank(count, permille) * 1000 < count * permille <= (rank(count, permille) + 1) * 1000,
{
    assert(0 < count * permille <= count * 1000) by (nonlinear_arith)
        requires
            0 < permille <= 1000,
            count > 0,
    ;
}

} // verus!
