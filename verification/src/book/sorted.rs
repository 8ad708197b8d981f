//! The occupied level slots of one side in price order, and the free ones.

use vstd::prelude::*;

use crate::book::model::better;
use crate::types::{PriceTicks, Side};

verus! {

pub fn has_priority(side: Side, left: PriceTicks, right: PriceTicks) -> (ahead: bool)
    ensures
        ahead == better(side, left, right),
{
    match side {
        Side::Buy => left.0 > right.0,
        Side::Sell => left.0 < right.0,
    }
}

/// Bids sort by price descending and asks ascending, so the best level comes
/// first. Occupied and free slots partition `0..LEVELS`.
#[derive(Debug)]
pub struct LevelIndex<const LEVELS: usize> {
    entries: Vec<(PriceTicks, usize)>,
    free: Vec<usize>,
}

impl<const LEVELS: usize> LevelIndex<LEVELS> {
    pub closed spec fn entries(&self) -> Seq<(PriceTicks, usize)> {
        self.entries@
    }

    pub closed spec fn free(&self) -> Seq<usize> {
        self.free@
    }

    pub open spec fn wf(&self, side: Side) -> bool {
        &&& self.entries().len() + self.free().len() == LEVELS
        &&& forall|i: int, j: int|
            0 <= i < j < self.entries().len() ==> better(
                side,
                (#[trigger] self.entries()[i]).0,
                (#[trigger] self.entries()[j]).0,
            )
        &&& forall|i: int, j: int|
            0 <= i < j < self.entries().len() ==> (#[trigger] self.entries()[i]).1 != (
            #[trigger] self.entries()[j]).1
        &&& forall|i: int| 0 <= i < self.entries().len() ==> (#[trigger] self.entries()[i]).1 < LEVELS
        &&& self.free().no_duplicates()
        &&& forall|i: int| 0 <= i < self.free().len() ==> #[trigger] self.free()[i] < LEVELS
        &&& forall|i: int, j: int|
            0 <= i < self.entries().len() && 0 <= j < self.free().len() ==> (
            #[trigger] self.entries()[i]).1 != #[trigger] self.free()[j]
        &&& forall|slot: usize|
            slot < LEVELS ==> self.listed(slot) || #[trigger] self.free().contains(slot)
    }

    /// Some entry names `slot`.
    pub open spec fn listed(&self, slot: usize) -> bool {
        exists|i: int| 0 <= i < self.entries().len() && (#[trigger] self.entries()[i]).1 == slot
    }

    pub fn new() -> (index: Self)
        ensures
            forall|side: Side| index.wf(side),
            index.entries() == Seq::<(PriceTicks, usize)>::empty(),
    {
        let mut free: Vec<usize> = Vec::new();
        let mut index: usize = 0;
        // The pool pops from the end, so a fresh book allocates the lowest
        // level slots first.
        while index < LEVELS
            invariant
                index <= LEVELS,
                free@.len() == index,
                forall|i: int| 0 <= i < index ==> #[trigger] free@[i] == LEVELS - 1 - i,
            decreases LEVELS - index,
        {
            free.push(LEVELS - 1 - index);
            index = index + 1;
        }
        assert forall|slot: usize| slot < LEVELS implies free@.contains(slot) by {
            assert(free@[LEVELS - 1 - slot] == slot);
        }
        LevelIndex { entries: Vec::new(), free }
    }

    pub fn len(&self) -> (len: usize)
        ensures
            len == self.entries().len(),
    {
        self.entries.len()
    }

    pub fn is_full(&self) -> (full: bool)
        requires
            exists|side: Side| self.wf(side),
        ensures
            full == (self.entries().len() == LEVELS),
    {
        self.free.len() == 0
    }

    pub fn entry(&self, position: usize) -> (entry: (PriceTicks, usize))
        requires
            position < self.entries().len(),
        ensures
            entry == self.entries()[position as int],
    {
        self.entries[position]
    }

    /// Sorted position of `price`: the insertion point and whether an entry
    /// with that exact price occupies it.
    pub fn position(&self, price: PriceTicks, side: Side) -> (place: (usize, bool))
        requires
            self.wf(side),
        ensures
            place.0 <= self.entries().len(),
            forall|i: int|
                0 <= i < place.0 ==> better(side, (#[trigger] self.entries()[i]).0, price),
            forall|i: int|
                place.0 <= i < self.entries().len() ==> !better(
                    side,
                    (#[trigger] self.entries()[i]).0,
                    price,
                ),
            place.1 == (place.0 < self.entries().len() && self.entries()[place.0 as int].0
                == price),
            place.1 == exists|i: int|
                0 <= i < self.entries().len() && (#[trigger] self.entries()[i]).0 == price,
    {
        let mut low: usize = 0;
        let mut high: usize = self.entries.len();
        while low < high
            invariant
                self.wf(side),
                low <= high <= self.entries@.len(),
                forall|i: int|
                    0 <= i < low ==> better(side, (#[trigger] self.entries()[i]).0, price),
                forall|i: int|
                    high <= i < self.entries().len() ==> !better(
                        side,
                        (#[trigger] self.entries()[i]).0,
                        price,
                    ),
            decreases high - low,
        {
            let middle: usize = low + (high - low) / 2;
            assert(self.entries()[middle as int] == self.entries@[middle as int]);
            if has_priority(side, self.entries[middle].0, price) {
                low = middle + 1;
            } else {
                high = middle;
            }
        }
        let found = low < self.entries.len() && self.entries[low].0.0 == price.0;
        assert(found ==> self.entries()[low as int].0 == price);
        assert forall|i: int|
            0 <= i < self.entries().len() && (#[trigger] self.entries()[i]).0 == price implies found by {
            assert(i >= low);
            if i > low {
                assert(better(side, self.entries()[low as int].0, self.entries()[i].0));
            }
        }
        (low, found)
    }

    /// Level slot holding `price`, if one is occupied at that price.
    pub fn find(&self, price: PriceTicks, side: Side) -> (slot: Option<usize>)
        requires
            self.wf(side),
        ensures
            match slot {
                Some(slot) => exists|i: int|
                    0 <= i < self.entries().len() && #[trigger] self.entries()[i] == (price, slot),
                None => forall|i: int|
                    0 <= i < self.entries().len() ==> (#[trigger] self.entries()[i]).0 != price,
            },
    {
        let (position, found) = self.position(price, side);
        if found {
            assert(self.entries()[position as int] == (price, self.entries@[position as int].1));
            Some(self.entries[position].1)
        } else {
            None
        }
    }

    #[verifier::spinoff_prover]
    /// Allocates a free level slot and lists it at `price` in sorted order, or
    /// returns `None` when every level slot is occupied.
    pub fn insert(&mut self, price: PriceTicks, side: Side) -> (slot: Option<usize>)
        requires
            old(self).wf(side),
            forall|i: int|
                0 <= i < old(self).entries().len() ==> (#[trigger] old(self).entries()[i]).0
                    != price,
        ensures
            final(self).wf(side),
            slot is Some <==> old(self).entries().len() < LEVELS,
            slot is None ==> *final(self) == *old(self),
            slot is Some ==> slot->0 < LEVELS && slot->0 == old(self).free().last(),
            slot is Some ==> old(self).free().contains(slot->0),
            slot is Some ==> final(self).free() == old(self).free().drop_last(),
            slot is Some ==> exists|position: int| #[trigger]
                inserted(*old(self), *final(self), side, price, slot->0, position),
    {
        let (position, found) = self.position(price, side);
        if self.free.len() == 0 {
            return None;
        }
        let ghost before = *self;
        let slot: usize = self.free[self.free.len() - 1];
        let popped = self.free.pop();
        assert(before.free()[before.free().len() - 1] == slot);
        self.entries.insert(position, (price, slot));
        proof {
            assert(before.free().contains(slot));
            assert(self.free() =~= before.free().drop_last());
            assert(self.entries() =~= before.entries().insert(position as int, (price, slot)));
            let entries = self.entries();
            assert(forall|i: int|
                0 <= i < entries.len() ==> #[trigger] entries[i] == if i < position {
                    before.entries()[i]
                } else if i == position {
                    (price, slot)
                } else {
                    before.entries()[i - 1]
                });
            assert forall|i: int, j: int| 0 <= i < j < entries.len() implies better(
                side,
                (#[trigger] entries[i]).0,
                (#[trigger] entries[j]).0,
            ) by {
                if i == position {
                    assert(!better(side, before.entries()[j - 1].0, price));
                    assert(before.entries()[j - 1].0 != price);
                }
            }
            assert forall|s: usize| s < LEVELS implies self.listed(s) || #[trigger] self.free().contains(
                s,
            ) by {
                if s == slot {
                    assert(entries[position as int].1 == s);
                } else if before.listed(s) {
                    let i = choose|i: int|
                        0 <= i < before.entries().len() && (#[trigger] before.entries()[i]).1 == s;
                    assert(entries[if i < position {
                        i
                    } else {
                        i + 1
                    }].1 == s);
                } else {
                    assert(before.free().contains(s));
                    let i = choose|i: int| 0 <= i < before.free().len() && before.free()[i] == s;
                    assert(self.free()[i] == s);
                }
            }
        }
        let outcome = Some(slot);
        assert(inserted(before, *self, side, price, outcome->0, position as int));
        outcome
    }

    /// Unlists the level at `position` and returns its slot to the free pool.
    pub fn remove_position(&mut self, position: usize, side: Side) -> (slot: usize)
        requires
            old(self).wf(side),
            position < old(self).entries().len(),
        ensures
            final(self).wf(side),
            slot == old(self).entries()[position as int].1,
            final(self).entries() == old(self).entries().remove(position as int),
            final(self).free() == old(self).free().push(slot),
    {
        let ghost before = *self;
        let (price, slot) = self.entries.remove(position);
        assert(before.entries()[position as int] == (price, slot));
        self.free.push(slot);
        proof {
            let entries = self.entries();
            assert(forall|i: int|
                0 <= i < entries.len() ==> #[trigger] entries[i] == if i < position {
                    before.entries()[i]
                } else {
                    before.entries()[i + 1]
                });
            assert forall|i: int| 0 <= i < entries.len() implies (#[trigger] entries[i]).1 != slot by {
                let other = if i < position {
                    i
                } else {
                    i + 1
                };
                assert(before.entries()[other].1 != before.entries()[position as int].1);
            }
            assert(self.free().no_duplicates());
            assert forall|s: usize| s < LEVELS implies self.listed(s) || #[trigger] self.free().contains(
                s,
            ) by {
                if s == slot {
                    assert(self.free()[before.free().len() as int] == s);
                } else if before.listed(s) {
                    let i = choose|i: int|
                        0 <= i < before.entries().len() && (#[trigger] before.entries()[i]).1 == s;
                    assert(entries[if i < position {
                        i
                    } else {
                        i - 1
                    }].1 == s);
                } else {
                    assert(before.free().contains(s));
                    let i = choose|i: int| 0 <= i < before.free().len() && before.free()[i] == s;
                    assert(self.free()[i] == s);
                }
            }
        }
        slot
    }

    /// Unlists the level at `price` and returns its slot to the free pool.
    pub fn remove(&mut self, price: PriceTicks, side: Side) -> (slot: Option<usize>)
        requires
            old(self).wf(side),
        ensures
            final(self).wf(side),
            slot is None ==> *final(self) == *old(self) && forall|i: int|
                0 <= i < old(self).entries().len() ==> (#[trigger] old(self).entries()[i]).0
                    != price,
            slot is Some ==> exists|i: int|
                {
                    &&& 0 <= i < old(self).entries().len()
                    &&& #[trigger] old(self).entries()[i] == (price, slot->0)
                    &&& final(self).entries() == old(self).entries().remove(i)
                    &&& final(self).free() == old(self).free().push(slot->0)
                },
    {
        let (position, found) = self.position(price, side);
        if !found {
            return None;
        }
        let ghost before = *self;
        let slot: usize = self.remove_position(position, side);
        assert(before.entries()[position as int] == (price, slot));
        Some(slot)
    }
}

/// `after` lists one more level than `before`, at `price`, at `position`.
pub open spec fn inserted<const LEVELS: usize>(
    before: LevelIndex<LEVELS>,
    after: LevelIndex<LEVELS>,
    side: Side,
    price: PriceTicks,
    slot: usize,
    position: int,
) -> bool {
    &&& 0 <= position <= before.entries().len()
    &&& after.entries() == before.entries().insert(position, (price, slot))
    &&& forall|i: int|
        0 <= i < position ==> better(side, (#[trigger] before.entries()[i]).0, price)
    &&& forall|i: int|
        position <= i < before.entries().len() ==> !better(
            side,
            (#[trigger] before.entries()[i]).0,
            price,
        )
}

} // verus!
