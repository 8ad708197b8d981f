//! The book itself: both sides, and the index that finds every resting order.

pub mod amend;
pub mod matching;
pub mod readout;
pub mod snapshot;

use vstd::prelude::*;

use crate::book::level::RestingOrder;
use crate::book::model::{lemma_rank_splits, ordered, rank, reduced_at, rested, BookView};
use crate::book::order_index::{
    decoded, in_range, index_fits, is_refiled, lemma_code, location_code, refiles, OrderIndex,
    OrderLocation, Refiled,
};
use crate::book::side::BookSide;
use crate::types::{InstrumentId, OrderId, PriceTicks, Quantity, RejectReason, Side};

verus! {

/// Single-instrument, fixed-capacity price-time book with indexed order
/// lookup and sorted-level best-price discovery. Per-level FIFOs use stable
/// slot handles: insert, fill, and cancel never shift peer orders or rewrite
/// their locations.
pub struct OrderBook<const LEVELS: usize, const ORDERS_PER_LEVEL: usize> {
    pub(crate) instrument: InstrumentId,
    pub(crate) bids: BookSide<LEVELS, ORDERS_PER_LEVEL>,
    pub(crate) asks: BookSide<LEVELS, ORDERS_PER_LEVEL>,
    pub(crate) index: OrderIndex<LEVELS, ORDERS_PER_LEVEL>,
}

impl<const LEVELS: usize, const ORDERS_PER_LEVEL: usize> View for OrderBook<
    LEVELS,
    ORDERS_PER_LEVEL,
> {
    type V = BookView;

    closed spec fn view(&self) -> BookView {
        BookView {
            instrument: self.instrument,
            bids: self.bids.view_levels(),
            asks: self.asks.view_levels(),
        }
    }
}

impl<const LEVELS: usize, const ORDERS_PER_LEVEL: usize> OrderBook<LEVELS, ORDERS_PER_LEVEL> {
    pub(crate) closed spec fn book_side(&self, side: Side) -> BookSide<LEVELS, ORDERS_PER_LEVEL> {
        match side {
            Side::Buy => self.bids,
            Side::Sell => self.asks,
        }
    }

    pub(crate) closed spec fn live(&self, location: OrderLocation) -> bool {
        self.book_side(location.side).live(location.level_index as int, location.slot as int)
    }

    pub(crate) closed spec fn order_at(&self, location: OrderLocation) -> RestingOrder {
        self.book_side(location.side).order_at(location.level_index as int, location.slot as int)
    }

    /// The index finds `id`, and the order there knows its index slot.
    spec fn located(&self, id: OrderId) -> bool {
        let location = decoded(self.index@[id.0] as int, ORDERS_PER_LEVEL);
        &&& self.live(location)
        &&& self.order_at(location).id == id
        &&& self.order_at(location).index_slot == self.index.slot_of(id)
    }

    /// The order at `location` is filed there.
    spec fn indexed(&self, location: OrderLocation) -> bool {
        let id = self.order_at(location).id;
        &&& self.index@.contains_key(id.0)
        &&& self.index@[id.0] == location_code(location, ORDERS_PER_LEVEL)
    }

    spec fn sides_wf(&self) -> bool {
        &&& self.bids.wf()
        &&& self.asks.wf()
        &&& self.bids.which() == Side::Buy
        &&& self.asks.which() == Side::Sell
    }

    /// Sides and index agree on every resting order.
    pub(crate) closed spec fn consistent(&self) -> bool {
        &&& self.sides_wf()
        &&& self.index.wf()
        &&& forall|id: OrderId| #[trigger] self.index@.contains_key(id.0) ==> self.located(id)
        &&& forall|location: OrderLocation| #[trigger]
            self.live(location) ==> self.indexed(location)
    }

    pub closed spec fn wf(&self) -> bool {
        &&& self.consistent()
        &&& ordered(self@.bids, Side::Buy)
        &&& ordered(self@.asks, Side::Sell)
        &&& self@.uncrossed()
    }

    /// Two places never hold the same order.
    pub(crate) proof fn lemma_one_place(&self, a: OrderLocation, b: OrderLocation)
        requires
            self.consistent(),
            self.live(a),
            self.live(b),
            self.order_at(a).id == self.order_at(b).id,
        ensures
            a == b,
    {
        assert(self.indexed(a) && self.indexed(b));
        let p = self.book_side(a.side).lemma_place(a.level_index, a.slot);
        let q = self.book_side(b.side).lemma_place(b.level_index, b.slot);
        lemma_code(a, LEVELS, ORDERS_PER_LEVEL);
        lemma_code(b, LEVELS, ORDERS_PER_LEVEL);
    }

    /// An order of the view rests at a location.
    pub(crate) proof fn lemma_rests(&self, id: OrderId, side: Side, i: int, k: int) -> (location:
        OrderLocation)
        requires
            self.consistent(),
            self@.rests_at(id, side, i, k),
        ensures
            location.side == side,
            self.live(location),
            self.order_at(location).id == id,
            self.order_at(location).logical() == self@.side(side)[i].orders[k],
            self.book_side(side).placed(location.level_index as int, location.slot as int, i, k),
    {
        let book = self.book_side(side);
        book.lemma_view_live(i, k);
        let level_index = book.entries()[i].1;
        let slot = book.level_at(level_index as int).chain()[k];
        OrderLocation { side, level_index, slot }
    }

    /// No identifier rests twice.
    pub(crate) proof fn lemma_unique_ids(&self)
        requires
            self.consistent(),
        ensures
            self@.unique_ids(),
    {
        assert forall|id: OrderId, s1: Side, i1: int, k1: int, s2: Side, i2: int, k2: int|
            #![trigger self@.rests_at(id, s1, i1, k1), self@.rests_at(id, s2, i2, k2)]
            self@.rests_at(id, s1, i1, k1) && self@.rests_at(id, s2, i2, k2) implies s1 == s2 && i1
            == i2 && k1 == k2 by {
            let a = self.lemma_rests(id, s1, i1, k1);
            let b = self.lemma_rests(id, s2, i2, k2);
            self.lemma_one_place(a, b);
            self.book_side(s1).lemma_placed_unique(
                a.level_index as int,
                a.slot as int,
                i1,
                k1,
                i2,
                k2,
            );
        }
    }

    /// A live location holds an order of the view, at the order's place.
    pub(crate) proof fn lemma_located_place(&self, location: OrderLocation) -> (place: (int, int))
        requires
            self.consistent(),
            self.live(location),
        ensures
            self.book_side(location.side).placed(
                location.level_index as int,
                location.slot as int,
                place.0,
                place.1,
            ),
            self@.rests_at(self.order_at(location).id, location.side, place.0, place.1),
            self@.contains(self.order_at(location).id),
            self@.place(self.order_at(location).id) == (location.side, place.0, place.1),
            self@.order(self.order_at(location).id) == self.order_at(location).logical(),
            in_range(location, LEVELS, ORDERS_PER_LEVEL),
    {
        let place = self.book_side(location.side).lemma_place(location.level_index, location.slot);
        let id = self.order_at(location).id;
        assert(self@.rests_at(id, location.side, place.0, place.1));
        self.lemma_unique_ids();
        let found = self@.place(id);
        assert(self@.rests_at(id, found.0, found.1, found.2));
        place
    }

    /// The index files exactly the orders of the view.
    pub(crate) proof fn lemma_contains(&self, id: OrderId)
        requires
            self.consistent(),
        ensures
            self@.contains(id) <==> self.index@.contains_key(id.0),
            self@.contains(id) ==> ({
                let location = decoded(self.index@[id.0] as int, ORDERS_PER_LEVEL);
                &&& self.live(location)
                &&& self.order_at(location).id == id
            }),
    {
        if self@.contains(id) {
            let (side, i, k) = self@.place(id);
            let location = self.lemma_rests(id, side, i, k);
            assert(self.indexed(location));
        }
        if self.index@.contains_key(id.0) {
            assert(self.located(id));
            let location = decoded(self.index@[id.0] as int, ORDERS_PER_LEVEL);
            let place = self.lemma_located_place(location);
        }
    }

    /// Every book is sound and within its capacities, and identifiers find their
    /// orders.
    pub proof fn law_sound(&self)
        requires
            self.wf(),
        ensures
            self@.sound(),
            self@.bids.len() <= LEVELS,
            self@.asks.len() <= LEVELS,
            forall|side: Side, i: int|
                0 <= i < self@.side(side).len() ==> (#[trigger] self@.side(side)[i]).orders.len()
                    <= ORDERS_PER_LEVEL,
    {
        self.lemma_unique_ids();
        self.bids.lemma_view();
        self.asks.lemma_view();
    }

    /// An empty book.
    pub fn new(instrument: InstrumentId) -> (book: Self)
        requires
            index_fits(LEVELS, ORDERS_PER_LEVEL),
        ensures
            book.wf(),
            book@ == (BookView { instrument, bids: Seq::empty(), asks: Seq::empty() }),
    {
        let book = OrderBook {
            instrument,
            bids: BookSide::new(Side::Buy),
            asks: BookSide::new(Side::Sell),
            index: OrderIndex::new(),
        };
        assert(book@ =~= (BookView { instrument, bids: Seq::empty(), asks: Seq::empty() }));
        book
    }

    pub(crate) fn side_ref(&self, side: Side) -> (book: &BookSide<LEVELS, ORDERS_PER_LEVEL>)
        requires
            self.consistent(),
        ensures
            *book == self.book_side(side),
            book.wf(),
            book.which() == side,
            book.view_levels() == self@.side(side),
    {
        match side {
            Side::Buy => &self.bids,
            Side::Sell => &self.asks,
        }
    }

    /// Whether an order with this identifier rests in the book.
    pub fn contains_order(&self, order_id: OrderId) -> (found: bool)
        requires
            self.wf(),
        ensures
            found == self@.contains(order_id),
    {
        proof {
            self.lemma_contains(order_id);
        }
        self.index.location(order_id).is_some()
    }

    /// Where an order rests, and the order.
    pub(crate) fn locate(&self, order_id: OrderId) -> (found: Option<(OrderLocation, RestingOrder)>)
        requires
            self.consistent(),
        ensures
            found is Some <==> self@.contains(order_id),
            found is Some ==> {
                &&& self.live((found->0).0)
                &&& self.order_at((found->0).0) == (found->0).1
                &&& (found->0).1.id == order_id
            },
    {
        proof {
            self.lemma_contains(order_id);
        }
        match self.index.location(order_id) {
            None => None,
            Some(location) => {
                let order = self.side_ref(location.side).get_live(
                    location.level_index,
                    location.slot,
                );
                match order {
                    Some(order) => Some((location, order)),
                    None => None,
                }
            },
        }
    }

    /// A level, where there is one, can hold an order.
    pub open spec fn can_rest() -> bool {
        LEVELS > 0 ==> ORDERS_PER_LEVEL > 0
    }

    /// Why the side has no room for one more order at `price`, if it has none.
    pub(crate) fn room(&self, side: Side, price: PriceTicks) -> (reason: Option<RejectReason>)
        requires
            self.consistent(),
        ensures
            reason == self@.no_room(side, price, LEVELS as nat, ORDERS_PER_LEVEL as nat),
            reason is None && Self::can_rest() ==> self.book_side(side).has_room(price),
    {
        let book = self.side_ref(side);
        proof {
            book.lemma_view();
            lemma_rank_splits(book.view_levels(), side, price);
        }
        match book.find(price) {
            Some(level_index) => {
                let ghost r = rank(book.view_levels(), side, price);
                assert(book.entries()[r].1 == level_index);
                assert(book.view_levels()[r].orders.len() <= ORDERS_PER_LEVEL);
                if book.level(level_index).len() == ORDERS_PER_LEVEL {
                    Some(RejectReason::PriceLevelOrderCapacity)
                } else {
                    None
                }
            },
            None => {
                if book.level_count() == LEVELS {
                    Some(RejectReason::PriceLevelCapacity)
                } else {
                    None
                }
            },
        }
    }

    /// The price of the level at `location`'s slot, and how many orders it has.
    pub(crate) fn level_of(&self, location: OrderLocation) -> (level: (PriceTicks, usize))
        requires
            self.consistent(),
            self.live(location),
        ensures
            ({
                let (side, i, k) = self@.place(self.order_at(location).id);
                &&& level.0 == self@.side(side)[i].price
                &&& level.1 == self@.side(side)[i].orders.len()
            }),
    {
        let book = self.side_ref(location.side);
        proof {
            let place = self.lemma_located_place(location);
            book.lemma_view();
            assert(book.entries()[place.0].1 == location.level_index);
            assert(book.view_levels()[place.0].orders.len() <= ORDERS_PER_LEVEL);
        }
        let level = book.level(location.level_index);
        (level.price(), level.len())
    }

    /// The best price of a side.
    pub(crate) fn best_price(&self, side: Side) -> (price: Option<PriceTicks>)
        requires
            self.consistent(),
        ensures
            price == if self@.side(side).len() > 0 {
                Some(self@.side(side)[0].price)
            } else {
                None
            },
    {
        let book = self.side_ref(side);
        if book.level_count() == 0 {
            None
        } else {
            Some(book.entry(0).0)
        }
    }

    /// Takes the order at `location` out of its side and out of the index.
    pub(crate) fn take(&mut self, location: OrderLocation) -> (removed: RestingOrder)
        requires
            old(self).consistent(),
            old(self).live(location),
        ensures
            final(self).consistent(),
            removed == old(self).order_at(location),
            final(self)@ == old(self)@.without(removed.id),
            !final(self)@.contains(removed.id),
            others_kept(*old(self), *final(self), location),
            final(self).index@ == old(self).index@.remove(removed.id.0),
    {
        let ghost before = *self;
        let ghost place = self.lemma_located_place(location);
        assert(before.indexed(location));
        let removed = match location.side {
            Side::Buy => self.bids.remove(location.level_index, location.slot),
            Side::Sell => self.asks.remove(location.level_index, location.slot),
        };
        let ghost cleared = *self;
        proof {
            lemma_code(location, LEVELS, ORDERS_PER_LEVEL);
            assert(before.located(removed.id));
            assert(cleared@ =~= before@.without(removed.id));
            assert forall|other: OrderLocation| #[trigger] cleared.live(other) == (before.live(other)
                && other != location) by {}
            assert forall|other: OrderLocation| other != location && before.live(other) implies #[trigger] cleared.order_at(
            other) == before.order_at(other) by {}
        }
        let unfiled = match self.index.remove_at(removed.index_slot, removed.id) {
            Some(unfiled) => unfiled,
            None => {
                assert(false);
                return removed;
            },
        };
        let refiled = unfiled.refiled;
        let ghost index = self.index;
        let mut i: usize = 0;
        proof {
            assert forall|other: OrderLocation| #[trigger] self.live(other) implies self.order_at(
                other,
            ).index_slot == index.slot_of(self.order_at(other).id) || pending(
                refiled@,
                0,
                self.order_at(other).id,
            ) by {
                assert(before.live(other) && other != location);
                assert(before.indexed(other));
                let id = before.order_at(other).id;
                if id == removed.id {
                    before.lemma_one_place(other, location);
                }
                let found = before.lemma_located_place(other);
                lemma_code(other, LEVELS, ORDERS_PER_LEVEL);
                assert(before.located(id));
                if is_refiled(refiled@, id) {
                    let j = choose|j: int| 0 <= j < refiled@.len() && (#[trigger] refiled@[j]).order_id == id;
                    assert(pending(refiled@, 0, id));
                } else {
                    assert(index.slot_of(id) == before.index.slot_of(id));
                }
            }
        }
        while i < refiled.len()
            invariant
                i <= refiled@.len(),
                before.consistent(),
                before.live(location),
                removed == before.order_at(location),
                index == self.index,
                index.wf(),
                refiles(before.index, index, removed.id, refiled@),
                self.settling(before, location, refiled@, i as int),
                self@ == before@.without(removed.id),
            decreases refiled.len() - i,
        {
            let entry = refiled[i];
            let ghost current = *self;
            assert(entry == refiled@[i as int]);
            proof {
                assert(before.located(entry.order_id));
                assert(before.live(entry.location));
                assert(entry.location != location);
                assert(current.live(entry.location));
                assert(current.order_at(entry.location).logical() == before.order_at(
                    entry.location,
                ).logical());
            }
            match entry.location.side {
                Side::Buy => self.bids.set_index_slot(
                    entry.location.level_index,
                    entry.location.slot,
                    entry.index_slot,
                ),
                Side::Sell => self.asks.set_index_slot(
                    entry.location.level_index,
                    entry.location.slot,
                    entry.index_slot,
                ),
            }
            proof {
                assert forall|other: OrderLocation| #[trigger] self.live(other) == current.live(
                    other,
                ) by {}
                assert forall|other: OrderLocation| other != entry.location && current.live(other) implies #[trigger] self.order_at(
                other) == current.order_at(other) by {}
                assert forall|other: OrderLocation| #[trigger] self.live(other) implies self.order_at(
                    other,
                ).index_slot == index.slot_of(self.order_at(other).id) || pending(
                    refiled@,
                    i + 1,
                    self.order_at(other).id,
                ) by {
                    assert(current.live(other));
                    if other != entry.location {
                        let id = current.order_at(other).id;
                        if pending(refiled@, i as int, id) {
                            let j = choose|j: int|
                                i <= j < refiled@.len() && (#[trigger] refiled@[j]).order_id == id;
                            if j == i {
                                assert(before.order_at(other).id == id);
                                before.lemma_one_place(other, entry.location);
                            }
                            assert(pending(refiled@, i + 1, id));
                        }
                    }
                }
                assert(self@ =~= before@.without(removed.id));
            }
            i = i + 1;
        }
        proof {
            self.lemma_settled(before, location, refiled@);
            self.lemma_contains(removed.id);
        }
        removed
    }

    /// Rests `order` behind its peers at `price` and files it.
    pub(crate) fn file(&mut self, side: Side, price: PriceTicks, order: RestingOrder)
        requires
            old(self).consistent(),
            old(self).book_side(side).has_room(price),
            !old(self)@.contains(order.id),
        ensures
            final(self).consistent(),
            final(self)@ == old(self)@.with_side(
                side,
                rested(old(self)@.side(side), side, price, order.logical()),
            ),
    {
        let ghost before = *self;
        proof {
            before.lemma_contains(order.id);
        }
        let (level_index, slot) = match side {
            Side::Buy => self.bids.rest(price, order),
            Side::Sell => self.asks.rest(price, order),
        };
        let location = OrderLocation { side, level_index, slot };
        let ghost rested_book = *self;
        proof {
            lemma_code(location, LEVELS, ORDERS_PER_LEVEL);
            before.index.lemma_coded();
            assert(location_code(location, ORDERS_PER_LEVEL) <= u32::MAX);
            assert(!before.live(location));
            assert forall|id: u64| #![trigger before.index@[id]] before.index@.contains_key(id) implies before.index@[id]
                != location_code(location, ORDERS_PER_LEVEL) by {
                assert(before.located(OrderId(id)));
            }
            assert forall|other: OrderLocation| #[trigger] rested_book.live(other) == (before.live(
                other,
            ) || other == location) by {}
            assert forall|other: OrderLocation| other != location && before.live(other) implies #[trigger] rested_book.order_at(
            other) == before.order_at(other) by {}
        }
        let index_slot = match self.index.insert(order.id, location) {
            Ok(index_slot) => index_slot,
            Err(reason) => {
                assert(false);
                return ;
            },
        };
        match side {
            Side::Buy => self.bids.set_index_slot(level_index, slot, index_slot),
            Side::Sell => self.asks.set_index_slot(level_index, slot, index_slot),
        }
        proof {
            assert(self@ =~= before@.with_side(
                side,
                rested(before@.side(side), side, price, order.logical()),
            ));
            assert forall|other: OrderLocation| #[trigger] self.live(other) == (before.live(other)
                || other == location) by {
                assert(rested_book.live(other) == (before.live(other) || other == location));
            }
            assert forall|other: OrderLocation| other != location && before.live(other) implies #[trigger] self.order_at(
            other) == before.order_at(other) by {
                assert(rested_book.live(other));
                assert(rested_book.order_at(other) == before.order_at(other));
            }
            assert(self.live(location));
            assert(self.order_at(location) == RestingOrder { index_slot, ..order });
            assert forall|id: OrderId| #[trigger] self.index@.contains_key(id.0) implies self.located(
                id,
            ) by {
                if id != order.id {
                    assert(before.index@.contains_key(id.0));
                    assert(before.located(id));
                    let place = decoded(before.index@[id.0] as int, ORDERS_PER_LEVEL);
                    assert(before.live(place));
                    assert(self.live(place));
                    assert(self.order_at(place) == before.order_at(place));
                    assert(self.index.slot_of(id) == before.index.slot_of(id));
                }
            }
            assert forall|other: OrderLocation| #[trigger] self.live(other) implies self.indexed(
                other,
            ) by {
                if other != location {
                    assert(before.live(other));
                    assert(before.indexed(other));
                    assert(self.order_at(other) == before.order_at(other));
                }
            }
        }
    }

    /// Takes `quantity` off the order at `location`, which keeps its place.
    pub(crate) fn shrink(&mut self, location: OrderLocation, quantity: Quantity)
        requires
            old(self).consistent(),
            old(self).live(location),
            quantity.0 <= old(self).order_at(location).quantity.0,
        ensures
            final(self).consistent(),
            final(self)@ == ({
                let (side, i, k) = old(self)@.place(old(self).order_at(location).id);
                old(self)@.with_side(
                    side,
                    reduced_at(old(self)@.side(side), i, k, quantity.0 as int),
                )
            }),
            forall|other: OrderLocation| #[trigger]
                final(self).live(other) == old(self).live(other),
            forall|other: OrderLocation|
                old(self).live(other) ==> (#[trigger] final(self).order_at(other)).id == old(
                    self).order_at(other).id,
            final(self).index == old(self).index,
    {
        let ghost before = *self;
        let ghost place = self.lemma_located_place(location);
        match location.side {
            Side::Buy => self.bids.reduce(location.level_index, location.slot, quantity),
            Side::Sell => self.asks.reduce(location.level_index, location.slot, quantity),
        }
        proof {
            assert(self@ =~= before@.with_side(
                location.side,
                reduced_at(before@.side(location.side), place.0, place.1, quantity.0 as int),
            ));
            assert forall|other: OrderLocation| #[trigger] self.live(other) == before.live(other) by {}
            assert forall|other: OrderLocation| other != location && before.live(other) implies #[trigger] self.order_at(
            other) == before.order_at(other) by {}
            assert forall|id: OrderId| #[trigger] self.index@.contains_key(id.0) implies self.located(
                id,
            ) by {
                assert(before.located(id));
                let found = decoded(before.index@[id.0] as int, ORDERS_PER_LEVEL);
                assert(before.live(found));
                if found != location {
                    assert(self.order_at(found) == before.order_at(found));
                }
            }
            assert forall|other: OrderLocation| #[trigger] self.live(other) implies self.indexed(
                other,
            ) by {
                assert(before.live(other));
                assert(before.indexed(other));
                if other != location {
                    assert(self.order_at(other) == before.order_at(other));
                }
            }
        }
    }

    /// The state of a removal in which the orders of `refiled` from `from` on
    /// still await their new index slots.
    spec fn settling(
        &self,
        before: Self,
        location: OrderLocation,
        refiled: Seq<Refiled>,
        from: int,
    ) -> bool {
        &&& self.sides_wf()
        &&& self.index.wf()
        &&& self.index@ == before.index@.remove(before.order_at(location).id.0)
        &&& forall|other: OrderLocation| #[trigger]
            self.live(other) == (before.live(other) && other != location)
        &&& forall|other: OrderLocation|
            other != location && before.live(other) ==> (#[trigger] self.order_at(other)).logical()
                == before.order_at(other).logical()
        &&& forall|other: OrderLocation| #[trigger]
            self.live(other) ==> self.order_at(other).index_slot == self.index.slot_of(
                self.order_at(other).id,
            ) || pending(refiled, from, self.order_at(other).id)
    }

    proof fn lemma_settled(&self, before: Self, location: OrderLocation, refiled: Seq<Refiled>)
        requires
            before.consistent(),
            before.live(location),
            self.settling(before, location, refiled, refiled.len() as int),
        ensures
            self.consistent(),
            others_kept(before, *self, location),
    {
        assert forall|id: OrderId| #[trigger] self.index@.contains_key(id.0) implies self.located(
            id,
        ) by {
            assert(before.index@.contains_key(id.0));
            assert(before.located(id));
            let place = decoded(before.index@[id.0] as int, ORDERS_PER_LEVEL);
            assert(before.live(place));
            assert(place != location);
            assert(self.live(place));
            assert(self.order_at(place).logical() == before.order_at(place).logical());
            assert(self.index@[id.0] == before.index@[id.0]);
        }
        assert forall|other: OrderLocation| #[trigger] self.live(other) implies self.indexed(other) by {
            assert(before.live(other) && other != location);
            assert(before.indexed(other));
            assert(self.order_at(other).logical() == before.order_at(other).logical());
            if before.order_at(other).id == before.order_at(location).id {
                before.lemma_one_place(other, location);
            }
        }
    }
}

/// An entry of `refiled` from `from` on names `id`.
spec fn pending(refiled: Seq<Refiled>, from: int, id: OrderId) -> bool {
    exists|j: int| from <= j < refiled.len() && (#[trigger] refiled[j]).order_id == id
}

/// Every location but one holds the order that it held.
pub(crate) closed spec fn others_kept<const LEVELS: usize, const ORDERS: usize>(
    before: OrderBook<LEVELS, ORDERS>,
    after: OrderBook<LEVELS, ORDERS>,
    location: OrderLocation,
) -> bool {
    forall|other: OrderLocation|
        other != location && before.live(other) ==> {
            &&& #[trigger] after.live(other)
            &&& after.order_at(other).logical() == before.order_at(other).logical()
        }
}

} // verus!
