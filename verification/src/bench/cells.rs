//! What the cells of the suite have in common.

use vstd::prelude::*;

use crate::bench::record::{appended, BenchRecord, BenchView};

verus! {

/// The exclusive or of the first `count` values of a series, and of `start`.
pub open spec fn folded(start: u64, series: spec_fn(nat) -> u64, count: nat) -> u64
    decreases count,
{
    if count == 0 {
        start
    } else {
        folded(start, series, (count - 1) as nat) ^ series((count - 1) as nat)
    }
}

/// The same number each time.
pub open spec fn constant(value: u64) -> spec_fn(nat) -> u64 {
    |i: nat| value
}

/// The checksum of the same number again and again is that number or zero, as
/// the count is odd or even.
pub proof fn law_constant_checksum(value: u64, count: nat)
    ensures
        folded(0, constant(value), count) == if count % 2 == 0 {
            0
        } else {
            value
        },
    decreases count,
{
    if count > 0 {
        law_constant_checksum(value, (count - 1) as nat);
        assert(0u64 ^ value == value) by (bit_vector);
        assert(value ^ value == 0u64) by (bit_vector);
    }
}

/// The sum of the same number again and again, modulo the machine word.
pub open spec fn summed(value: u64, count: nat) -> u64
    decreases count,
{
    if count == 0 {
        0
    } else {
        summed(value, (count - 1) as nat).wrapping_add(value)
    }
}

/// The bits of `value` moved up by `count`, the highest to the lowest places.
pub open spec fn spec_rotated(value: u64, count: u64) -> u64 {
    if count == 0 {
        value
    } else {
        (value << count) | (value >> ((64 - count) as u64))
    }
}

/// The bits of `value` moved up by `count`, the highest to the lowest places.
pub fn rotated(value: u64, count: u64) -> (moved: u64)
    requires
        count < 64,
    ensures
        moved == spec_rotated(value, count),
{
    if count == 0 {
        value
    } else {
        (value << count) | (value >> (64 - count))
    }
}

/// What a cell is to record: the record but for its figures, how many samples it
/// takes, and the rate of a mean that is too short for the clock.
pub struct Cell {
    pub base: BenchView,
    pub samples: nat,
    pub brief_rate: u64,
}

/// The records before, and one for each cell behind them.
pub open spec fn extended(
    before: Seq<BenchRecord>,
    after: Seq<BenchRecord>,
    cells: Seq<Cell>,
) -> bool {
    &&& after.len() == before.len() + cells.len()
    &&& forall|i: int| 0 <= i < before.len() ==> #[trigger] after[i] == before[i]
    &&& forall|i: int|
        before.len() <= i < after.len() ==> (#[trigger] after[i])@.measures(
            cells[i - before.len()],
        )
}

pub proof fn lemma_extended_none(before: Seq<BenchRecord>)
    ensures
        extended(before, before, Seq::<Cell>::empty()),
{
}

pub proof fn lemma_extended_one(
    before: Seq<BenchRecord>,
    middle: Seq<BenchRecord>,
    after: Seq<BenchRecord>,
    cells: Seq<Cell>,
    cell: Cell,
)
    requires
        extended(before, middle, cells),
        appended(middle, after, cell),
    ensures
        extended(before, after, cells.push(cell)),
{
    let all = cells.push(cell);
    assert forall|i: int| 0 <= i < before.len() implies #[trigger] after[i] == before[i] by {
        assert(after.drop_last()[i] == middle[i]);
    }
    assert forall|i: int| before.len() <= i < after.len() implies (#[trigger] after[i])@.measures(
        all[i - before.len()],
    ) by {
        if i < middle.len() {
            assert(after.drop_last()[i] == middle[i]);
            assert(all[i - before.len()] == cells[i - before.len()]);
        }
    }
}

pub proof fn lemma_extended_more(
    before: Seq<BenchRecord>,
    middle: Seq<BenchRecord>,
    after: Seq<BenchRecord>,
    first: Seq<Cell>,
    second: Seq<Cell>,
)
    requires
        extended(before, middle, first),
        extended(middle, after, second),
    ensures
        extended(before, after, first + second),
{
    let all = first + second;
    assert forall|i: int| 0 <= i < before.len() implies #[trigger] after[i] == before[i] by {
        assert(middle[i] == before[i]);
    }
    assert forall|i: int| before.len() <= i < after.len() implies (#[trigger] after[i])@.measures(
        all[i - before.len()],
    ) by {
        if i < middle.len() {
            assert(after[i] == middle[i]);
            assert(all[i - before.len()] == first[i - before.len()]);
        } else {
            assert(all[i - before.len()] == second[i - middle.len()]);
        }
    }
}

/// The smaller of two counts.
pub open spec fn least(a: nat, b: nat) -> nat {
    if a < b {
        a
    } else {
        b
    }
}

/// A rotation loses no bit: each of them is found `count` places higher, counted round.
pub proof fn law_rotation_moves_every_bit(value: u64, count: u64, bit: u64)
    requires
        count < 64,
        bit < 64,
    ensures
        (spec_rotated(value, count) >> ((bit + count) % 64) as u64) & 1 == (value >> bit) & 1,
{
    if count == 0 {
        assert((bit + count) % 64 == bit);
    } else {
        let down = (64 - count) as u64;
        let place = ((bit + count) % 64) as u64;
        assert((((value << count) | (value >> down)) >> place) & 1 == (value >> bit) & 1)
            by (bit_vector)
            requires
                0 < count < 64,
                bit < 64,
                down == 64 - count,
                place == (bit + count) % 64,
        ;
    }
}

} // verus!
