//! One side of the book: its levels in stable slots, and their price order.

use vstd::prelude::*;

use crate::book::level::{PriceLevel, RestingOrder};
use crate::book::model::{
    better, has_level, lemma_rank, rank, reduced_at, removed_at, rested, LevelView,
};
use crate::book::sorted::{inserted, LevelIndex};
use crate::types::{PriceTicks, Quantity, Side};

verus! {

pub struct BookSide<const LEVELS: usize, const ORDERS: usize> {
    side: Side,
    levels: Vec<Option<PriceLevel<ORDERS>>>,
    sorted: LevelIndex<LEVELS>,
}

impl<const LEVELS: usize, const ORDERS: usize> BookSide<LEVELS, ORDERS> {
    pub closed spec fn which(&self) -> Side {
        self.side
    }

    /// The level slots in price order, best first.
    pub closed spec fn entries(&self) -> Seq<(PriceTicks, usize)> {
        self.sorted.entries()
    }

    pub closed spec fn level_at(&self, level_index: int) -> PriceLevel<ORDERS> {
        self.levels@[level_index]->0
    }

    /// An order rests at this level slot and order slot.
    pub closed spec fn live(&self, level_index: int, slot: int) -> bool {
        &&& 0 <= level_index < self.levels@.len()
        &&& self.levels@[level_index] is Some
        &&& self.levels@[level_index]->0.live(slot)
    }

    pub closed spec fn order_at(&self, level_index: int, slot: int) -> RestingOrder {
        self.levels@[level_index]->0.order_at(slot)
    }

    /// The levels of the side, best first.
    pub open spec fn view_levels(&self) -> Seq<LevelView> {
        Seq::new(
            self.entries().len(),
            |i: int|
                LevelView {
                    price: self.entries()[i].0,
                    orders: self.level_at(self.entries()[i].1 as int).orders(),
                },
        )
    }

    pub closed spec fn wf(&self) -> bool {
        &&& self.levels@.len() == LEVELS
        &&& self.sorted.wf(self.side)
        &&& forall|i: int|
            0 <= i < self.sorted.entries().len() ==> occupied(
                self.levels@,
                #[trigger] self.sorted.entries()[i],
            )
        &&& forall|i: int|
            0 <= i < self.sorted.free().len()
                ==> self.levels@[#[trigger] self.sorted.free()[i] as int] is None
    }

    /// The order slot `slot` of level slot `level_index` is the order at
    /// position `k` of level `i` of the view.
    pub open spec fn placed(&self, level_index: int, slot: int, i: int, k: int) -> bool {
        &&& 0 <= i < self.entries().len()
        &&& self.entries()[i].1 == level_index
        &&& 0 <= k < self.level_at(level_index).chain().len()
        &&& self.level_at(level_index).chain()[k] == slot
    }

    /// A live slot has a place in the view.
    pub proof fn lemma_place(&self, level_index: usize, slot: usize) -> (place: (int, int))
        requires
            self.wf(),
            self.live(level_index as int, slot as int),
        ensures
            self.placed(level_index as int, slot as int, place.0, place.1),
            level_index < LEVELS,
            slot < ORDERS,
            self.view_levels()[place.0].orders[place.1] == self.order_at(
                level_index as int,
                slot as int,
            ).logical(),
            place.0 < self.view_levels().len(),
            place.1 < self.view_levels()[place.0].orders.len(),
    {
        let level = self.levels@[level_index as int]->0;
        assert(self.sorted.listed(level_index)) by {
            if !self.sorted.listed(level_index) {
                assert(self.sorted.free().contains(level_index));
                let j = choose|j: int|
                    0 <= j < self.sorted.free().len() && self.sorted.free()[j] == level_index;
                assert(self.levels@[self.sorted.free()[j] as int] is None);
            }
        }
        let i = choose|i: int|
            0 <= i < self.sorted.entries().len() && (#[trigger] self.sorted.entries()[i]).1
                == level_index;
        assert(occupied(self.levels@, self.sorted.entries()[i]));
        level.lemma_chain();
        assert(level.live(slot as int));
        let k = choose|k: int| 0 <= k < level.chain().len() && level.chain()[k] == slot;
        (i, k)
    }

    /// Every order of the view is live somewhere.
    pub proof fn lemma_view_live(&self, i: int, k: int)
        requires
            self.wf(),
            0 <= i < self.view_levels().len(),
            0 <= k < self.view_levels()[i].orders.len(),
        ensures
            ({
                let level_index = self.entries()[i].1;
                let slot = self.level_at(level_index as int).chain()[k];
                &&& level_index < LEVELS
                &&& slot < ORDERS
                &&& self.live(level_index as int, slot as int)
                &&& self.order_at(level_index as int, slot as int).logical()
                    == self.view_levels()[i].orders[k]
                &&& self.placed(level_index as int, slot as int, i, k)
            }),
    {
        assert(occupied(self.levels@, self.sorted.entries()[i]));
        self.level_at(self.entries()[i].1 as int).lemma_chain();
    }

    /// Places are unique.
    pub proof fn lemma_placed_unique(&self, level_index: int, slot: int, i: int, k: int, i2: int, k2: int)
        requires
            self.wf(),
            self.placed(level_index, slot, i, k),
            self.placed(level_index, slot, i2, k2),
        ensures
            i == i2,
            k == k2,
    {
        assert(occupied(self.levels@, self.sorted.entries()[i]));
        assert(occupied(self.levels@, self.sorted.entries()[i2]));
        self.level_at(level_index).lemma_chain();
    }

    /// The levels are in strict price order, none is empty, and the side's
    /// capacities hold.
    pub proof fn lemma_view(&self)
        requires
            self.wf(),
        ensures
            self.view_levels().len() == self.entries().len(),
            self.view_levels().len() <= LEVELS,
            forall|i: int, j: int|
                0 <= i < j < self.view_levels().len() ==> better(
                    self.which(),
                    (#[trigger] self.view_levels()[i]).price,
                    (#[trigger] self.view_levels()[j]).price,
                ),
            forall|i: int|
                0 <= i < self.view_levels().len() ==> {
                    &&& 0 < (#[trigger] self.view_levels()[i]).orders.len() <= ORDERS
                    &&& self.level_at(self.entries()[i].1 as int).wf()
                    &&& self.level_at(self.entries()[i].1 as int).spec_price()
                        == self.view_levels()[i].price
                },
    {
        assert forall|i: int| 0 <= i < self.view_levels().len() implies {
            &&& 0 < (#[trigger] self.view_levels()[i]).orders.len() <= ORDERS
            &&& self.level_at(self.entries()[i].1 as int).wf()
            &&& self.level_at(self.entries()[i].1 as int).spec_price()
                == self.view_levels()[i].price
        } by {
            assert(occupied(self.levels@, self.sorted.entries()[i]));
            self.level_at(self.entries()[i].1 as int).lemma_chain();
        }
    }

    pub fn new(side: Side) -> (book: Self)
        ensures
            book.wf(),
            book.which() == side,
            book.view_levels() == Seq::<LevelView>::empty(),
            forall|l: int, s: int| !#[trigger] book.live(l, s),
    {
        let mut levels: Vec<Option<PriceLevel<ORDERS>>> = Vec::new();
        while levels.len() < LEVELS
            invariant
                levels@.len() <= LEVELS,
                forall|i: int| 0 <= i < levels@.len() ==> (#[trigger] levels@[i]) is None,
            decreases LEVELS - levels.len(),
        {
            levels.push(None);
        }
        let book = BookSide { side, levels, sorted: LevelIndex::new() };
        assert(book.sorted.wf(side));
        assert(book.view_levels() =~= Seq::<LevelView>::empty());
        book
    }

    pub fn side(&self) -> (side: Side)
        ensures
            side == self.which(),
    {
        self.side
    }

    pub fn level_count(&self) -> (count: usize)
        ensures
            count == self.view_levels().len(),
    {
        self.sorted.len()
    }

    /// Price and slot of the level at `position` in price order.
    pub fn entry(&self, position: usize) -> (entry: (PriceTicks, usize))
        requires
            position < self.view_levels().len(),
        ensures
            entry == self.entries()[position as int],
            entry.0 == self.view_levels()[position as int].price,
    {
        self.sorted.entry(position)
    }

    /// The level in an occupied slot.
    pub fn level(&self, level_index: usize) -> (level: &PriceLevel<ORDERS>)
        requires
            self.wf(),
            exists|i: int| 0 <= i < self.entries().len() && (#[trigger] self.entries()[i]).1
                == level_index,
        ensures
            *level == self.level_at(level_index as int),
            level.wf(),
    {
        proof {
            let i = choose|i: int|
                0 <= i < self.entries().len() && (#[trigger] self.entries()[i]).1 == level_index;
            assert(occupied(self.levels@, self.sorted.entries()[i]));
        }
        match &self.levels[level_index] {
            Some(level) => level,
            None => {
                assert(false);
                vstd::pervasive::unreached()
            },
        }
    }

    /// The level slot at `price`, if there is one.
    pub fn find(&self, price: PriceTicks) -> (slot: Option<usize>)
        requires
            self.wf(),
        ensures
            slot is Some <==> has_level(self.view_levels(), price),
            slot is Some ==> ({
                let r = rank(self.view_levels(), self.which(), price);
                &&& 0 <= r < self.view_levels().len()
                &&& self.entries()[r] == (price, slot->0)
            }),
            forall|i: int|
                0 <= i < self.view_levels().len() && (#[trigger] self.view_levels()[i]).price
                    == price ==> i == rank(self.view_levels(), self.which(), price),
    {
        let slot = self.sorted.find(price, self.side);
        proof {
            assert forall|i: int|
                0 <= i < self.view_levels().len() && (#[trigger] self.view_levels()[i]).price
                    == price implies i == rank(self.view_levels(), self.which(), price) by {
                self.lemma_view();
                lemma_rank(self.view_levels(), self.which(), price, i);
            }
            if slot is Some {
                let i = choose|i: int|
                    0 <= i < self.sorted.entries().len() && #[trigger] self.sorted.entries()[i] == (
                        price,
                        slot->0,
                    );
                assert(self.view_levels()[i].price == price);
            } else {
                assert forall|i: int|
                    0 <= i < self.view_levels().len() implies (#[trigger] self.view_levels()[i]).price
                    != price by {
                    assert(self.sorted.entries()[i].0 != price);
                }
            }
        }
        slot
    }

    pub fn get_live(&self, level_index: usize, slot: usize) -> (order: Option<RestingOrder>)
        ensures
            order is Some <==> self.live(level_index as int, slot as int),
            order is Some ==> order->0 == self.order_at(level_index as int, slot as int),
    {
        if level_index < self.levels.len() {
            match &self.levels[level_index] {
                Some(level) => level.get_live(slot),
                None => None,
            }
        } else {
            None
        }
    }

    /// Takes a live order out, and its level with it when it was the last one.
    pub fn remove(&mut self, level_index: usize, slot: usize) -> (removed: RestingOrder)
        requires
            old(self).wf(),
            old(self).live(level_index as int, slot as int),
        ensures
            final(self).wf(),
            final(self).which() == old(self).which(),
            removed == old(self).order_at(level_index as int, slot as int),
            forall|i: int, k: int| #[trigger]
                old(self).placed(level_index as int, slot as int, i, k)
                    ==> final(self).view_levels() == removed_at(old(self).view_levels(), i, k),
            frame_except(*old(self), *final(self), level_index as int, slot as int),
            !final(self).live(level_index as int, slot as int),
    {
        let ghost place = self.lemma_place(level_index, slot);
        let ghost i = place.0;
        let ghost k = place.1;
        let ghost before = *self;
        assert(occupied(before.levels@, before.sorted.entries()[i]));
        proof {
            before.level_at(level_index as int).lemma_chain();
        }
        let (removed, left, price) = match &mut self.levels[level_index] {
            Some(level) => {
                let removed = level.unlink(slot);
                let left = level.len();
                let price = level.price();
                (removed, left, price)
            },
            None => {
                assert(false);
                vstd::pervasive::unreached()
            },
        };
        let ghost middle = *self;
        let ghost kept = self.levels@[level_index as int]->0;
        assert(before.level_at(level_index as int).chain().index_of(slot) == k);
        if left == 0 {
            self.levels.set(level_index, None);
            let released = self.sorted.remove(price, self.side);
            proof {
                lemma_unlisted(before.sorted, self.sorted, i);
                assert(self.view_levels() =~= removed_at(before.view_levels(), i, k)) by {
                    assert forall|j: int| 0 <= j < self.entries().len() implies self.view_levels()[j]
                        == #[trigger] before.view_levels().remove(i)[j] by {
                        let o = if j < i {
                            j
                        } else {
                            j + 1
                        };
                        assert(self.entries()[j] == before.sorted.entries()[o]);
                        assert(before.sorted.entries()[o].1 != before.sorted.entries()[i].1);
                    }
                }
                assert forall|j: int| 0 <= j < self.sorted.entries().len() implies occupied(
                    self.levels@,
                    #[trigger] self.sorted.entries()[j],
                ) by {
                    let o = if j < i {
                        j
                    } else {
                        j + 1
                    };
                    assert(self.sorted.entries()[j] == before.sorted.entries()[o]);
                    assert(before.sorted.entries()[o].1 != before.sorted.entries()[i].1);
                    assert(occupied(before.levels@, before.sorted.entries()[o]));
                }
                assert forall|j: int| 0 <= j < self.sorted.free().len() implies self.levels@[
                #[trigger] self.sorted.free()[j] as int] is None by {
                    if j < before.sorted.free().len() {
                        assert(self.sorted.free()[j] == before.sorted.free()[j]);
                        assert(before.levels@[before.sorted.free()[j] as int] is None);
                    }
                }
            }
        } else {
            proof {
                assert(self.view_levels() =~= removed_at(before.view_levels(), i, k)) by {
                    assert forall|j: int|
                        0 <= j < self.entries().len() && j != i implies #[trigger] self.view_levels()[j]
                        == before.view_levels()[j] by {
                        assert(before.sorted.entries()[j].1 != before.sorted.entries()[i].1);
                    }
                }
                assert forall|j: int| 0 <= j < self.sorted.entries().len() implies occupied(
                    self.levels@,
                    #[trigger] self.sorted.entries()[j],
                ) by {
                    assert(occupied(before.levels@, before.sorted.entries()[j]));
                    if j != i {
                        assert(before.sorted.entries()[j].1 != before.sorted.entries()[i].1);
                    }
                }
                assert forall|j: int| 0 <= j < self.sorted.free().len() implies self.levels@[
                #[trigger] self.sorted.free()[j] as int] is None by {
                    assert(before.sorted.entries()[i].1 != before.sorted.free()[j]);
                }
            }
        }
        proof {
            assert forall|i2: int, k2: int| #[trigger]
                before.placed(level_index as int, slot as int, i2, k2) implies self.view_levels()
                == removed_at(before.view_levels(), i2, k2) by {
                before.lemma_placed_unique(level_index as int, slot as int, i, k, i2, k2);
            }
            if left == 0 {
                assert forall|s: int| kept.live(s) == false by {
                    kept.lemma_chain();
                }
            }
        }
        match removed {
            Some(order) => order,
            None => {
                assert(false);
                vstd::pervasive::unreached()
            },
        }
    }

    /// Takes `quantity` off a live order, which keeps its place.
    pub fn reduce(&mut self, level_index: usize, slot: usize, quantity: Quantity)
        requires
            old(self).wf(),
            old(self).live(level_index as int, slot as int),
            quantity.0 <= old(self).order_at(level_index as int, slot as int).quantity.0,
        ensures
            final(self).wf(),
            final(self).which() == old(self).which(),
            forall|i: int, k: int| #[trigger]
                old(self).placed(level_index as int, slot as int, i, k) ==> final(self).view_levels()
                    == reduced_at(old(self).view_levels(), i, k, quantity.0 as int),
            frame_except(*old(self), *final(self), level_index as int, slot as int),
            final(self).live(level_index as int, slot as int),
            final(self).order_at(level_index as int, slot as int) == (RestingOrder {
                quantity: Quantity(
                    (old(self).order_at(level_index as int, slot as int).quantity.0
                        - quantity.0) as u64,
                ),
                ..old(self).order_at(level_index as int, slot as int)
            }),
    {
        let ghost place = self.lemma_place(level_index, slot);
        let ghost i = place.0;
        let ghost k = place.1;
        let ghost before = *self;
        assert(occupied(before.levels@, before.sorted.entries()[i]));
        proof {
            before.level_at(level_index as int).lemma_chain();
        }
        match &mut self.levels[level_index] {
            Some(level) => {
                let reduced = level.reduce_quantity(slot, quantity);
            },
            None => {
                assert(false);
            },
        }
        assert(before.level_at(level_index as int).chain().index_of(slot) == k);
        proof {
            lemma_same_shape(before, *self, level_index as int);
            assert(self.view_levels() =~= reduced_at(
                before.view_levels(),
                i,
                k,
                quantity.0 as int,
            )) by {
                assert forall|j: int| 0 <= j < self.entries().len() && j != i implies #[trigger] self.view_levels()[j]
                    == before.view_levels()[j] by {
                    assert(before.sorted.entries()[j].1 != before.sorted.entries()[i].1);
                }
            }
            assert forall|i2: int, k2: int| #[trigger]
                before.placed(level_index as int, slot as int, i2, k2) implies self.view_levels()
                == reduced_at(before.view_levels(), i2, k2, quantity.0 as int) by {
                before.lemma_placed_unique(level_index as int, slot as int, i, k, i2, k2);
            }
        }
    }

    /// Records where the order index files a live order.
    pub fn set_index_slot(&mut self, level_index: usize, slot: usize, index_slot: u32)
        requires
            old(self).wf(),
            old(self).live(level_index as int, slot as int),
        ensures
            final(self).wf(),
            final(self).which() == old(self).which(),
            final(self).view_levels() == old(self).view_levels(),
            frame_except(*old(self), *final(self), level_index as int, slot as int),
            final(self).live(level_index as int, slot as int),
            final(self).order_at(level_index as int, slot as int) == (RestingOrder {
                index_slot,
                ..old(self).order_at(level_index as int, slot as int)
            }),
    {
        let ghost place = self.lemma_place(level_index, slot);
        let ghost i = place.0;
        let ghost before = *self;
        assert(occupied(before.levels@, before.sorted.entries()[i]));
        match &mut self.levels[level_index] {
            Some(level) => level.set_index_slot(slot, index_slot),
            None => {
                assert(false);
            },
        }
        proof {
            lemma_same_shape(before, *self, level_index as int);
            assert(self.view_levels() =~= before.view_levels()) by {
                assert forall|j: int| 0 <= j < self.entries().len() implies #[trigger] self.view_levels()[j]
                    == before.view_levels()[j] by {
                    if j != i {
                        assert(before.sorted.entries()[j].1 != before.sorted.entries()[i].1);
                    }
                }
            }
        }
    }

    /// Room for one more order at `price`.
    pub open spec fn has_room(&self, price: PriceTicks) -> bool {
        let levels = self.view_levels();
        if has_level(levels, price) {
            levels[rank(levels, self.which(), price)].orders.len() < ORDERS
        } else {
            levels.len() < LEVELS && ORDERS > 0
        }
    }

    /// Appends an order behind its peers at `price`, opening the level where
    /// there is none yet.
    pub fn rest(&mut self, price: PriceTicks, order: RestingOrder) -> (place: (usize, usize))
        requires
            old(self).wf(),
            old(self).has_room(price),
        ensures
            final(self).wf(),
            final(self).which() == old(self).which(),
            final(self).view_levels() == rested(
                old(self).view_levels(),
                old(self).which(),
                price,
                order.logical(),
            ),
            place.0 < LEVELS,
            place.1 < ORDERS,
            frame_except(*old(self), *final(self), place.0 as int, place.1 as int),
            !old(self).live(place.0 as int, place.1 as int),
            final(self).live(place.0 as int, place.1 as int),
            final(self).order_at(place.0 as int, place.1 as int) == order,
    {
        let ghost before = *self;
        let ghost levels = self.view_levels();
        let ghost r = rank(levels, self.which(), price);
        let found = self.find(price);
        match found {
            Some(level_index) => {
                assert(occupied(before.levels@, before.sorted.entries()[r]));
                let slot = match &mut self.levels[level_index] {
                    Some(level) => level.push_tail(order),
                    None => None,
                };
                let slot: usize = match slot {
                    Some(slot) => slot,
                    None => {
                        assert(false);
                        vstd::pervasive::unreached()
                    },
                };
                proof {
                    lemma_same_shape(before, *self, level_index as int);
                    assert(self.view_levels() =~= rested(
                        levels,
                        before.which(),
                        price,
                        order.logical(),
                    )) by {
                        assert forall|j: int|
                            0 <= j < self.entries().len() && j != r implies #[trigger] self.view_levels()[j]
                            == levels[j] by {
                            assert(before.sorted.entries()[j].1 != before.sorted.entries()[r].1);
                        }
                    }
                }
                (level_index, slot)
            },
            None => {
                assert forall|j: int| 0 <= j < before.sorted.entries().len() implies (
                #[trigger] before.sorted.entries()[j]).0 != price by {
                    assert(levels[j].price == before.sorted.entries()[j].0);
                }
                let allocated = self.sorted.insert(price, self.side);
                let level_index: usize = match allocated {
                    Some(level_index) => level_index,
                    None => {
                        assert(false);
                        vstd::pervasive::unreached()
                    },
                };
                let mut level: PriceLevel<ORDERS> = PriceLevel::new(price);
                let ghost fresh = level;
                let pushed = level.push_tail(order);
                let slot: usize = match pushed {
                    Some(slot) => slot,
                    None => {
                        assert(false);
                        vstd::pervasive::unreached()
                    },
                };
                let ghost filled = level;
                assert(fresh.orders() =~= Seq::empty());
                assert(filled.orders() =~= seq![order.logical()]);
                proof {
                    fresh.lemma_chain();
                    filled.lemma_chain();
                }
                self.levels.set(level_index, Some(level));
                proof {
                    let position = choose|position: int| #[trigger]
                        inserted(
                            before.sorted,
                            self.sorted,
                            before.side,
                            price,
                            level_index,
                            position,
                        );
                    lemma_rank(levels, before.side, price, position);
                    lemma_opened(before, *self, price, level_index, position, filled);
                    assert(self.view_levels() =~= rested(
                        levels,
                        before.which(),
                        price,
                        order.logical(),
                    ));
                }
                (level_index, slot)
            },
        }
    }
}

/// The slot that `entry` names holds a well-formed level at the entry's price
/// with at least one order.
spec fn occupied<const ORDERS: usize>(
    levels: Seq<Option<PriceLevel<ORDERS>>>,
    entry: (PriceTicks, usize),
) -> bool {
    &&& levels[entry.1 as int] is Some
    &&& levels[entry.1 as int]->0.wf()
    &&& levels[entry.1 as int]->0.spec_price() == entry.0
    &&& levels[entry.1 as int]->0.chain().len() > 0
}

/// A change inside one occupied level that keeps its price and leaves it an
/// order keeps the side well formed.
proof fn lemma_same_shape<const LEVELS: usize, const ORDERS: usize>(
    before: BookSide<LEVELS, ORDERS>,
    after: BookSide<LEVELS, ORDERS>,
    level_index: int,
)
    requires
        before.wf(),
        before.side == after.side,
        before.sorted == after.sorted,
        0 <= level_index < LEVELS,
        before.levels@[level_index] is Some,
        after.levels@[level_index] is Some,
        after.levels@ == before.levels@.update(level_index, after.levels@[level_index]),
        after.levels@[level_index]->0.wf(),
        after.levels@[level_index]->0.chain().len() > 0,
        after.levels@[level_index]->0.spec_price() == before.levels@[level_index]->0.spec_price(),
    ensures
        after.wf(),
{
    assert forall|j: int| 0 <= j < after.sorted.entries().len() implies occupied(
        after.levels@,
        #[trigger] after.sorted.entries()[j],
    ) by {
        assert(occupied(before.levels@, before.sorted.entries()[j]));
    }
    assert forall|j: int| 0 <= j < after.sorted.free().len() implies after.levels@[
    #[trigger] after.sorted.free()[j] as int] is None by {
        assert(before.levels@[before.sorted.free()[j] as int] is None);
    }
}

/// Opening a level in a free slot keeps the side well formed and lists the
/// level at its place in price order.
proof fn lemma_opened<const LEVELS: usize, const ORDERS: usize>(
    before: BookSide<LEVELS, ORDERS>,
    after: BookSide<LEVELS, ORDERS>,
    price: PriceTicks,
    level_index: usize,
    position: int,
    level: PriceLevel<ORDERS>,
)
    requires
        before.wf(),
        before.side == after.side,
        inserted(before.sorted, after.sorted, before.side, price, level_index, position),
        after.sorted.wf(before.side),
        before.sorted.free().contains(level_index),
        after.sorted.free() == before.sorted.free().drop_last(),
        level_index == before.sorted.free().last(),
        after.levels@ == before.levels@.update(level_index as int, Some(level)),
        level.wf(),
        level.spec_price() == price,
        level.chain().len() > 0,
    ensures
        after.wf(),
        before.levels@[level_index as int] is None,
        after.view_levels() == before.view_levels().insert(
            position,
            LevelView { price, orders: level.orders() },
        ),
{
    let free = before.sorted.free();
    assert(free[free.len() - 1] == level_index);
    assert(before.levels@[free[free.len() - 1] as int] is None);
    let entries = after.sorted.entries();
    assert forall|j: int| 0 <= j < entries.len() implies occupied(
        after.levels@,
        #[trigger] entries[j],
    ) && after.view_levels()[j] == before.view_levels().insert(
        position,
        LevelView { price, orders: level.orders() },
    )[j] by {
        if j != position {
            let o = if j < position {
                j
            } else {
                j - 1
            };
            assert(entries[j] == before.sorted.entries()[o]);
            assert(occupied(before.levels@, before.sorted.entries()[o]));
            assert(before.sorted.entries()[o].1 != free[free.len() - 1]);
        }
    }
    assert(after.view_levels() =~= before.view_levels().insert(
        position,
        LevelView { price, orders: level.orders() },
    ));
    assert forall|j: int| 0 <= j < after.sorted.free().len() implies after.levels@[
    #[trigger] after.sorted.free()[j] as int] is None by {
        assert(after.sorted.free()[j] == free[j]);
        assert(before.levels@[free[j] as int] is None);
        assert(free[j] != free[free.len() - 1]);
    }
}

/// Every place but one holds what it held.
pub open spec fn frame_except<const LEVELS: usize, const ORDERS: usize>(
    before: BookSide<LEVELS, ORDERS>,
    after: BookSide<LEVELS, ORDERS>,
    level_index: int,
    slot: int,
) -> bool {
    &&& forall|l: int, s: int|
        l != level_index || s != slot ==> #[trigger] after.live(l, s) == before.live(l, s)
    &&& forall|l: int, s: int|
        (l != level_index || s != slot) && before.live(l, s) ==> #[trigger] after.order_at(l, s)
            == before.order_at(l, s)
}

proof fn lemma_unlisted<const LEVELS: usize>(
    before: LevelIndex<LEVELS>,
    after: LevelIndex<LEVELS>,
    i: int,
)
    requires
        0 <= i < before.entries().len(),
        exists|side: Side| before.wf(side),
        exists|j: int|
            {
                &&& 0 <= j < before.entries().len()
                &&& #[trigger] before.entries()[j].0 == before.entries()[i].0
                &&& after.entries() == before.entries().remove(j)
                &&& after.free() == before.free().push(before.entries()[j].1)
            },
    ensures
        after.entries() == before.entries().remove(i),
        after.free() == before.free().push(before.entries()[i].1),
{
    let side = choose|side: Side| before.wf(side);
    let j = choose|j: int|
        {
            &&& 0 <= j < before.entries().len()
            &&& #[trigger] before.entries()[j].0 == before.entries()[i].0
            &&& after.entries() == before.entries().remove(j)
            &&& after.free() == before.free().push(before.entries()[j].1)
        };
    if j < i {
        assert(better(side, before.entries()[j].0, before.entries()[i].0));
    } else if i < j {
        assert(better(side, before.entries()[i].0, before.entries()[j].0));
    }
}

} // verus!
